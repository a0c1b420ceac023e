//! Character-level text handling: the pieces of `str` processing that the
//! statistics parsers rely on (lines, whitespace-separated words, trimming,
//! prefixes, unsigned decimal numbers and splitting at a marker), each with
//! a specification over `Seq<char>`.
use vstd::prelude::*;

verus! {

/// `String::push` from std: appends one character to the end of the string.
pub assume_specification[ String::push ](string: &mut String, ch: char)
    ensures
        final(string)@ == old(string)@.push(ch),
;

/// Whether `c` has the Unicode `White_Space` property, the set that
/// `char::is_whitespace` (and so `str::split_whitespace` and `str::trim`) uses.
pub open spec fn is_ws(c: char) -> bool {
    let u = c as u32;
    ||| 0x09 <= u <= 0x0d
    ||| u == 0x20
    ||| u == 0x85
    ||| u == 0xa0
    ||| u == 0x1680
    ||| 0x2000 <= u <= 0x200a
    ||| u == 0x2028
    ||| u == 0x2029
    ||| u == 0x202f
    ||| u == 0x205f
    ||| u == 0x3000
}

/// Executable test for `is_ws`.
pub fn is_whitespace(c: char) -> (b: bool)
    ensures
        b == is_ws(c),
{
    let u = c as u32;
    (0x09 <= u && u <= 0x0d) || u == 0x20 || u == 0x85 || u == 0xa0 || u == 0x1680 || (0x2000
        <= u && u <= 0x200a) || u == 0x2028 || u == 0x2029 || u == 0x202f || u == 0x205f || u
        == 0x3000
}

/// The characters of `s`, in order.
pub fn chars_of(s: &str) -> (v: Vec<char>)
    ensures
        v@ == s@,
{
    broadcast use vstd::string::group_string_axioms;

    let mut v: Vec<char> = Vec::new();
    for c in it: s.chars()
        invariant
            v@ == it.seq().take(it.index() as int),
    {
        v.push(c);
    }
    v
}

/// Appends the characters of `s` to `out`.
pub fn append_str(out: &mut String, s: &str)
    ensures
        final(out)@ == old(out)@ + s@,
{
    let cs = chars_of(s);
    let ghost start = out@;
    let mut i: usize = 0;
    while i < cs.len()
        invariant
            i <= cs.len(),
            cs@ == s@,
            out@ == start + cs@.take(i as int),
        decreases cs.len() - i,
    {
        out.push(cs[i]);
        i = i + 1;
        assert(out@ =~= start + cs@.take(i as int));
    }
    assert(cs@.take(cs.len() as int) =~= cs@);
}

/// A `String` holding exactly the characters `v`.
pub fn string_of(v: &[char]) -> (s: String)
    ensures
        s@ == v@,
{
    let mut s = String::new();
    let mut i: usize = 0;
    while i < v.len()
        invariant
            i <= v.len(),
            s@ == v@.take(i as int),
        decreases v.len() - i,
    {
        s.push(v[i]);
        i = i + 1;
        assert(s@ =~= v@.take(i as int));
    }
    assert(v@.take(v.len() as int) =~= v@);
    s
}

/// The views of a sequence of character vectors.
pub open spec fn views(v: Seq<Vec<char>>) -> Seq<Seq<char>> {
    Seq::new(v.len(), |i: int| v[i]@)
}

/// The views of a sequence of strings.
pub open spec fn string_views(v: Seq<String>) -> Seq<Seq<char>> {
    Seq::new(v.len(), |i: int| v[i]@)
}

pub proof fn lemma_views_push(v: Seq<Vec<char>>, x: Vec<char>)
    ensures
        views(v.push(x)) == views(v).push(x@),
{
    assert(views(v.push(x)) =~= views(v).push(x@));
}

pub proof fn lemma_string_views_push(v: Seq<String>, x: String)
    ensures
        string_views(v.push(x)) == string_views(v).push(x@),
{
    assert(string_views(v.push(x)) =~= string_views(v).push(x@));
}

/// The strings of `ss` joined by `sep`.
pub open spec fn join(ss: Seq<Seq<char>>, sep: Seq<char>) -> Seq<char>
    decreases ss.len(),
{
    if ss.len() == 0 {
        seq![]
    } else if ss.len() == 1 {
        ss[0]
    } else {
        join(ss.drop_last(), sep) + sep + ss.last()
    }
}

// ---------------------------------------------------------------- words

/// Reading `s` from left to right: the words completed so far and the word
/// being read (empty between words). A word is a maximal run of
/// non-whitespace characters.
pub open spec fn words_scan(s: Seq<char>) -> (Seq<Seq<char>>, Seq<char>)
    decreases s.len(),
{
    if s.len() == 0 {
        (seq![], seq![])
    } else {
        let prev = words_scan(s.drop_last());
        let c = s.last();
        if is_ws(c) {
            if prev.1.len() > 0 {
                (prev.0.push(prev.1), seq![])
            } else {
                prev
            }
        } else {
            (prev.0, prev.1.push(c))
        }
    }
}

/// The whitespace-separated words of `s`, as `str::split_whitespace` yields them.
pub open spec fn words(s: Seq<char>) -> Seq<Seq<char>> {
    let st = words_scan(s);
    if st.1.len() > 0 {
        st.0.push(st.1)
    } else {
        st.0
    }
}

/// Whether `w` holds no whitespace.
pub open spec fn ws_free(w: Seq<char>) -> bool {
    forall|k: int| 0 <= k < w.len() ==> !is_ws(#[trigger] w[k])
}

proof fn lemma_words_scan(s: Seq<char>)
    ensures
        forall|i: int|
            0 <= i < words_scan(s).0.len() ==> #[trigger] words_scan(s).0[i].len() > 0 && ws_free(
                words_scan(s).0[i],
            ),
        ws_free(words_scan(s).1),
        words_scan(s).0.flatten() + words_scan(s).1 == s.filter(|c: char| !is_ws(c)),
    decreases s.len(),
{
    let keep = |c: char| !is_ws(c);
    if s.len() == 0 {
        assert(s.filter(keep) =~= Seq::<char>::empty()) by {
            reveal_with_fuel(Seq::filter, 1);
        }
        assert(words_scan(s).0.flatten() + words_scan(s).1 =~= Seq::<char>::empty());
    } else {
        let prev = words_scan(s.drop_last());
        let c = s.last();
        lemma_words_scan(s.drop_last());
        assert(s.drop_last().push(c) =~= s);
        s.drop_last().lemma_filter_push(c, keep);
        if is_ws(c) {
            if prev.1.len() > 0 {
                prev.0.lemma_flatten_push(prev.1);
                assert(words_scan(s).0 == prev.0.push(prev.1));
                assert forall|i: int| 0 <= i < words_scan(s).0.len() implies #[trigger] words_scan(
                    s,
                ).0[i].len() > 0 && ws_free(words_scan(s).0[i]) by {
                    if i < prev.0.len() {
                        assert(words_scan(s).0[i] == prev.0[i]);
                    }
                }
                assert(words_scan(s).0.flatten() + words_scan(s).1 =~= prev.0.flatten() + prev.1);
            }
        } else {
            assert(words_scan(s).1 == prev.1.push(c));
            assert(ws_free(words_scan(s).1)) by {
                assert forall|k: int| 0 <= k < prev.1.len() + 1 implies !is_ws(
                    #[trigger] prev.1.push(c)[k],
                ) by {
                    if k < prev.1.len() {
                        assert(prev.1.push(c)[k] == prev.1[k]);
                    }
                }
            }
            assert(words_scan(s).0.flatten() + words_scan(s).1 =~= (prev.0.flatten() + prev.1).push(
                c,
            ));
        }
    }
}

/// The words of a text are not empty and hold no whitespace, and read one
/// after another they give back every character of the text that is not
/// whitespace, in order.
pub proof fn words_are_the_text_without_whitespace(s: Seq<char>)
    ensures
        forall|i: int|
            0 <= i < words(s).len() ==> #[trigger] words(s)[i].len() > 0 && ws_free(words(s)[i]),
        words(s).flatten() == s.filter(|c: char| !is_ws(c)),
{
    lemma_words_scan(s);
    let st = words_scan(s);
    if st.1.len() > 0 {
        st.0.lemma_flatten_push(st.1);
        assert forall|i: int| 0 <= i < words(s).len() implies #[trigger] words(s)[i].len() > 0
            && ws_free(words(s)[i]) by {
            if i < st.0.len() {
                assert(words(s)[i] == st.0[i]);
            }
        }
    } else {
        assert(st.0.flatten() + st.1 =~= st.0.flatten());
    }
}

/// The whitespace-separated words of `s`.
pub fn split_words(s: &[char]) -> (ws: Vec<Vec<char>>)
    ensures
        views(ws@) == words(s@),
{
    let mut done: Vec<Vec<char>> = Vec::new();
    let mut cur: Vec<char> = Vec::new();
    let mut i: usize = 0;
    while i < s.len()
        invariant
            i <= s.len(),
            (views(done@), cur@) == words_scan(s@.take(i as int)),
        decreases s.len() - i,
    {
        let c = s[i];
        assert(s@.take(i as int + 1).drop_last() =~= s@.take(i as int));
        if is_whitespace(c) {
            if cur.len() > 0 {
                proof {
                    lemma_views_push(done@, cur);
                }
                done.push(cur);
                cur = Vec::new();
            }
        } else {
            cur.push(c);
        }
        i = i + 1;
    }
    assert(s@.take(s.len() as int) =~= s@);
    if cur.len() > 0 {
        proof {
            lemma_views_push(done@, cur);
        }
        done.push(cur);
    }
    done
}

// ---------------------------------------------------------------- lines

/// `w` without one trailing carriage return.
pub open spec fn strip_cr(w: Seq<char>) -> Seq<char> {
    if w.len() > 0 && w.last() == '\r' {
        w.drop_last()
    } else {
        w
    }
}

/// Reading `s` from left to right: the lines ended by a line feed so far
/// (each without a carriage return just before the line feed) and the
/// characters read since the last line feed.
pub open spec fn lines_scan(s: Seq<char>) -> (Seq<Seq<char>>, Seq<char>)
    decreases s.len(),
{
    if s.len() == 0 {
        (seq![], seq![])
    } else {
        let prev = lines_scan(s.drop_last());
        let c = s.last();
        if c == '\n' {
            (prev.0.push(strip_cr(prev.1)), seq![])
        } else {
            (prev.0, prev.1.push(c))
        }
    }
}

/// The lines of `s`, as `str::lines` yields them: split at each `\n`, a
/// `\r` right before a `\n` dropped, and no empty final line after a
/// trailing `\n`.
pub open spec fn lines(s: Seq<char>) -> Seq<Seq<char>> {
    let st = lines_scan(s);
    if st.1.len() > 0 {
        st.0.push(st.1)
    } else {
        st.0
    }
}

/// Each of `ls` followed by a line feed, one after another.
pub open spec fn with_newlines(ls: Seq<Seq<char>>) -> Seq<char>
    decreases ls.len(),
{
    if ls.len() == 0 {
        seq![]
    } else {
        with_newlines(ls.drop_last()) + ls.last().push('\n')
    }
}

proof fn lemma_lines_scan(s: Seq<char>)
    requires
        !s.contains('\r'),
    ensures
        with_newlines(lines_scan(s).0) + lines_scan(s).1 == s,
        !lines_scan(s).1.contains('\n'),
        forall|i: int|
            0 <= i < lines_scan(s).0.len() ==> !(#[trigger] lines_scan(s).0[i]).contains('\n'),
        lines_scan(s).1.len() > 0 ==> s.last() != '\n',
    decreases s.len(),
{
    if s.len() > 0 {
        let prev = lines_scan(s.drop_last());
        let c = s.last();
        assert(!s.drop_last().contains('\r')) by {
            if s.drop_last().contains('\r') {
                let k = choose|k: int| 0 <= k < s.drop_last().len() && s.drop_last()[k] == '\r';
                assert(s[k] == '\r');
            }
        }
        lemma_lines_scan(s.drop_last());
        assert(s.drop_last().push(c) =~= s);
        if c == '\n' {
            assert(!prev.1.contains('\r')) by {
                if prev.1.contains('\r') {
                    let k = choose|k: int| 0 <= k < prev.1.len() && prev.1[k] == '\r';
                    assert((with_newlines(prev.0) + prev.1)[with_newlines(prev.0).len() + k]
                        == '\r');
                    assert(s.drop_last()[with_newlines(prev.0).len() + k] == '\r');
                }
            }
            assert(strip_cr(prev.1) == prev.1);
            let ls = lines_scan(s).0;
            assert(ls == prev.0.push(prev.1));
            assert(ls.drop_last() =~= prev.0);
            assert(with_newlines(ls) + lines_scan(s).1 =~= (with_newlines(prev.0) + prev.1).push(
                '\n',
            ));
            assert forall|i: int| 0 <= i < ls.len() implies !(#[trigger] ls[i]).contains('\n') by {
                if i < prev.0.len() {
                    assert(ls[i] == prev.0[i]);
                }
            }
            assert(lines_scan(s).1 =~= Seq::<char>::empty());
        } else {
            assert(lines_scan(s).1 == prev.1.push(c));
            assert(with_newlines(lines_scan(s).0) + lines_scan(s).1 =~= (with_newlines(prev.0)
                + prev.1).push(c));
            assert(!prev.1.push(c).contains('\n')) by {
                if prev.1.push(c).contains('\n') {
                    let k = choose|k: int| 0 <= k < prev.1.push(c).len() && prev.1.push(c)[k] == '\n';
                    if k < prev.1.len() {
                        assert(prev.1[k] == '\n');
                    }
                }
            }
        }
    }
}

proof fn lemma_with_newlines_join(ls: Seq<Seq<char>>)
    requires
        ls.len() > 0,
    ensures
        with_newlines(ls) == join(ls, "\n"@).push('\n'),
    decreases ls.len(),
{
    reveal_strlit("\n");
    if ls.len() == 1 {
        assert(ls.drop_last() =~= Seq::<Seq<char>>::empty());
        assert(with_newlines(ls.drop_last()) =~= Seq::<char>::empty());
        assert(ls.last() == ls[0]);
        assert(with_newlines(ls) =~= ls[0].push('\n'));
    } else {
        lemma_with_newlines_join(ls.drop_last());
        assert(with_newlines(ls) =~= join(ls, "\n"@).push('\n'));
    }
}

/// Where a text holds no carriage return, its lines hold no line feed, and
/// joined by line feeds (with one more where the text ends in one) they
/// give back the text.
pub proof fn lines_give_back_the_text(s: Seq<char>)
    requires
        !s.contains('\r'),
    ensures
        forall|i: int| 0 <= i < lines(s).len() ==> !(#[trigger] lines(s)[i]).contains('\n'),
        join(lines(s), "\n"@) + (if s.len() > 0 && s.last() == '\n' {
            "\n"@
        } else {
            seq![]
        }) == s,
{
    reveal_strlit("\n");
    lemma_lines_scan(s);
    let st = lines_scan(s);
    if st.1.len() > 0 {
        let ls = st.0.push(st.1);
        assert(lines(s) == ls);
        assert forall|i: int| 0 <= i < ls.len() implies !(#[trigger] ls[i]).contains('\n') by {
            if i < st.0.len() {
                assert(ls[i] == st.0[i]);
            }
        }
        assert(ls.drop_last() =~= st.0);
        if st.0.len() > 0 {
            lemma_with_newlines_join(st.0);
            assert(join(ls, "\n"@) =~= join(st.0, "\n"@) + "\n"@ + st.1);
            assert(join(ls, "\n"@) =~= s);
        } else {
            assert(with_newlines(st.0) =~= Seq::<char>::empty());
            assert(join(ls, "\n"@) =~= s);
        }
        assert(join(lines(s), "\n"@) + Seq::<char>::empty() =~= s);
    } else {
        assert(lines(s) == st.0);
        if st.0.len() > 0 {
            lemma_with_newlines_join(st.0);
            assert(s =~= join(st.0, "\n"@).push('\n'));
            assert(s.last() == '\n');
            assert(join(st.0, "\n"@) + "\n"@ =~= s);
        } else {
            assert(with_newlines(st.0) =~= Seq::<char>::empty());
            assert(s =~= Seq::<char>::empty());
            assert(join(st.0, "\n"@) + Seq::<char>::empty() =~= s);
        }
    }
}

fn strip_cr_exec(w: Vec<char>) -> (r: Vec<char>)
    ensures
        r@ == strip_cr(w@),
{
    let ghost w0 = w@;
    let mut w = w;
    if w.len() > 0 && w[w.len() - 1] == '\r' {
        w.pop();
        assert(w@ =~= strip_cr(w0));
    }
    w
}

/// The lines of `s`.
pub fn split_lines(s: &[char]) -> (ls: Vec<Vec<char>>)
    ensures
        views(ls@) == lines(s@),
{
    let mut done: Vec<Vec<char>> = Vec::new();
    let mut cur: Vec<char> = Vec::new();
    let mut i: usize = 0;
    while i < s.len()
        invariant
            i <= s.len(),
            (views(done@), cur@) == lines_scan(s@.take(i as int)),
        decreases s.len() - i,
    {
        let c = s[i];
        assert(s@.take(i as int + 1).drop_last() =~= s@.take(i as int));
        if c == '\n' {
            let line = strip_cr_exec(cur);
            proof {
                lemma_views_push(done@, line);
            }
            done.push(line);
            cur = Vec::new();
        } else {
            cur.push(c);
        }
        i = i + 1;
    }
    assert(s@.take(s.len() as int) =~= s@);
    if cur.len() > 0 {
        proof {
            lemma_views_push(done@, cur);
        }
        done.push(cur);
    }
    done
}

// ---------------------------------------------------------------- trim

/// `s` without its leading whitespace.
pub open spec fn trim_start(s: Seq<char>) -> Seq<char>
    decreases s.len(),
{
    if s.len() > 0 && is_ws(s[0]) {
        trim_start(s.drop_first())
    } else {
        s
    }
}

/// `s` without its trailing whitespace.
pub open spec fn trim_end(s: Seq<char>) -> Seq<char>
    decreases s.len(),
{
    if s.len() > 0 && is_ws(s.last()) {
        trim_end(s.drop_last())
    } else {
        s
    }
}

/// `s` without leading and trailing whitespace, as `str::trim` gives it.
pub open spec fn trim(s: Seq<char>) -> Seq<char> {
    trim_end(trim_start(s))
}

/// `s` without leading and trailing whitespace.
pub fn trimmed(s: &[char]) -> (t: Vec<char>)
    ensures
        t@ == trim(s@),
{
    let n = s.len();
    let mut a: usize = 0;
    assert(s@.subrange(0, n as int) =~= s@);
    while a < n && is_whitespace(s[a])
        invariant
            a <= n,
            n == s@.len(),
            trim_start(s@) == trim_start(s@.subrange(a as int, n as int)),
        decreases n - a,
    {
        assert(s@.subrange(a as int, n as int).drop_first() =~= s@.subrange(a as int + 1, n as int));
        a = a + 1;
    }
    let ghost front = s@.subrange(a as int, n as int);
    assert(trim_start(s@) == front);
    let mut b: usize = n;
    while b > a && is_whitespace(s[b - 1])
        invariant
            a <= b <= n,
            n == s@.len(),
            front == s@.subrange(a as int, n as int),
            trim_end(front) == trim_end(s@.subrange(a as int, b as int)),
        decreases b - a,
    {
        assert(s@.subrange(a as int, b as int).drop_last() =~= s@.subrange(a as int, b as int - 1));
        b = b - 1;
    }
    let mut t: Vec<char> = Vec::new();
    let mut i: usize = a;
    while i < b
        invariant
            a <= i <= b <= n,
            n == s@.len(),
            t@ == s@.subrange(a as int, i as int),
        decreases b - i,
    {
        t.push(s[i]);
        i = i + 1;
        assert(t@ =~= s@.subrange(a as int, i as int));
    }
    t
}

// ---------------------------------------------------------------- prefixes

/// Whether `s` begins with `p`.
pub open spec fn has_prefix(s: Seq<char>, p: Seq<char>) -> bool {
    p.len() <= s.len() && s.take(p.len() as int) == p
}

/// Whether `s` begins with `p`.
pub fn starts_with(s: &[char], p: &[char]) -> (b: bool)
    ensures
        b == has_prefix(s@, p@),
{
    if p.len() > s.len() {
        return false;
    }
    let mut i: usize = 0;
    while i < p.len()
        invariant
            i <= p.len() <= s.len(),
            s@.take(i as int) == p@.take(i as int),
        decreases p.len() - i,
    {
        if s[i] != p[i] {
            assert(s@.take(p.len() as int)[i as int] != p@[i as int]);
            return false;
        }
        i = i + 1;
        assert(s@.take(i as int) =~= p@.take(i as int));
    }
    assert(p@.take(p.len() as int) =~= p@);
    true
}

// ---------------------------------------------------------------- numbers

/// Whether `c` is an ASCII decimal digit.
pub open spec fn is_digit(c: char) -> bool {
    '0' <= c <= '9'
}

/// The value of the digit character `c`.
pub open spec fn digit_value(c: char) -> nat {
    (c as u32 - '0' as u32) as nat
}

/// The number that the decimal digits `s` denote (0 for no digits).
pub open spec fn digits_value(s: Seq<char>) -> nat
    decreases s.len(),
{
    if s.len() == 0 {
        0
    } else {
        digits_value(s.drop_last()) * 10 + digit_value(s.last())
    }
}

/// Whether every character of `s` is an ASCII digit.
pub open spec fn all_digits(s: Seq<char>) -> bool {
    forall|i: int| 0 <= i < s.len() ==> is_digit(#[trigger] s[i])
}

/// `s` without one leading `+`.
pub open spec fn unsigned_part(s: Seq<char>) -> Seq<char> {
    if s.len() > 0 && s[0] == '+' {
        s.drop_first()
    } else {
        s
    }
}

/// What `str::parse::<u64>` gives: an optional leading `+`, then one or more
/// ASCII digits whose value fits in a `u64`; anything else is refused.
pub open spec fn parse_u64_spec(s: Seq<char>) -> Option<u64> {
    let d = unsigned_part(s);
    if d.len() > 0 && all_digits(d) && digits_value(d) <= u64::MAX {
        Some(digits_value(d) as u64)
    } else {
        None
    }
}

/// The number `s` denotes, or 0 where `s` is no `u64` (as
/// `s.parse().unwrap_or(0)` gives it).
pub open spec fn u64_or_zero(s: Seq<char>) -> u64 {
    match parse_u64_spec(s) {
        Some(v) => v,
        None => 0,
    }
}

proof fn lemma_digits_value_grows(s: Seq<char>, i: int)
    requires
        0 <= i <= s.len(),
    ensures
        digits_value(s.take(i)) <= digits_value(s),
    decreases s.len() - i,
{
    if i < s.len() {
        lemma_digits_value_grows(s, i + 1);
        assert(s.take(i + 1).drop_last() =~= s.take(i));
        assert(digits_value(s.take(i + 1)) == digits_value(s.take(i)) * 10 + digit_value(
            s.take(i + 1).last(),
        ));
    } else {
        assert(s.take(i) =~= s);
    }
}

/// Parses `s` as `str::parse::<u64>` does.
pub fn parse_u64(s: &[char]) -> (r: Option<u64>)
    ensures
        r == parse_u64_spec(s@),
{
    let n = s.len();
    let start: usize = if n > 0 && s[0] == '+' {
        1
    } else {
        0
    };
    let ghost d = unsigned_part(s@);
    assert(d =~= s@.subrange(start as int, n as int));
    if start == n {
        return None;
    }
    let mut acc: u64 = 0;
    let mut i: usize = start;
    while i < n
        invariant
            start <= i <= n,
            n == s@.len(),
            d == s@.subrange(start as int, n as int),
            d == unsigned_part(s@),
            forall|j: int| 0 <= j < i - start ==> is_digit(#[trigger] d[j]),
            acc as nat == digits_value(d.take(i - start)),
        decreases n - i,
    {
        let c = s[i];
        assert(d[i - start] == c);
        if !('0' <= c && c <= '9') {
            assert(!is_digit(d[i - start]));
            return None;
        }
        let dv = (c as u32 - '0' as u32) as u64;
        assert(d.take(i - start + 1).drop_last() =~= d.take(i - start));
        assert(d.take(i - start + 1).last() == c);
        assert(digits_value(d.take(i - start + 1)) == acc * 10 + dv);
        let step = acc.checked_mul(10);
        match step {
            None => {
                proof {
                    lemma_digits_value_grows(d, i - start + 1);
                }
                return None;
            },
            Some(m) => {
                match m.checked_add(dv) {
                    None => {
                        proof {
                            lemma_digits_value_grows(d, i - start + 1);
                        }
                        return None;
                    },
                    Some(v) => {
                        acc = v;
                    },
                }
            },
        }
        i = i + 1;
    }
    assert(d.take(n - start) =~= d);
    Some(acc)
}

/// The number `s` denotes, or 0 where `s` is no `u64`.
pub fn parse_u64_or_zero(s: &[char]) -> (v: u64)
    ensures
        v == u64_or_zero(s@),
{
    match parse_u64(s) {
        Some(v) => v,
        None => 0,
    }
}

/// The digit character for `d < 10`.
pub open spec fn digit_char(d: nat) -> char {
    (('0' as u32) + d) as char
}

/// The decimal representation of `n`, without leading zeros.
pub open spec fn decimal(n: nat) -> Seq<char>
    decreases n,
{
    if n < 10 {
        seq![digit_char(n)]
    } else {
        decimal(n / 10).push(digit_char(n % 10))
    }
}

/// Appends the decimal representation of `n` to `out`.
pub fn push_decimal(out: &mut String, n: u64)
    ensures
        final(out)@ == old(out)@ + decimal(n as nat),
    decreases n,
{
    if n >= 10 {
        push_decimal(out, n / 10);
    }
    let d = (n % 10) as u8;
    let ch = (48u8 + d) as char;
    assert(ch == digit_char((n % 10) as nat));
    out.push(ch);
    assert(final(out)@ =~= old(out)@ + decimal(n as nat)) by {}
}

/// A number written in decimal reads back as itself: the text is one or
/// more ASCII digits, with no leading zero unless the number is 0, and
/// their value is the number.
pub proof fn decimal_reads_back(n: nat)
    ensures
        decimal(n).len() > 0,
        all_digits(decimal(n)),
        digits_value(decimal(n)) == n,
        n > 0 ==> decimal(n)[0] != '0',
        n <= u64::MAX ==> parse_u64_spec(decimal(n)) == Some(n as u64),
    decreases n,
{
    let c = digit_char(n % 10);
    assert(('0' as u32) + n % 10 <= 0x39);
    assert(c as u32 == ('0' as u32) + n % 10);
    assert(is_digit(c));
    assert(digit_value(c) == n % 10);
    if n >= 10 {
        decimal_reads_back(n / 10);
        let p = decimal(n / 10);
        assert(decimal(n) == p.push(c));
        assert(decimal(n).drop_last() =~= p);
        assert(digits_value(decimal(n)) == digits_value(p) * 10 + digit_value(c));
        assert(n == (n / 10) * 10 + n % 10);
        assert(decimal(n)[0] == p[0]);
        assert forall|i: int| 0 <= i < decimal(n).len() implies is_digit(
            #[trigger] decimal(n)[i],
        ) by {
            if i < p.len() {
                assert(decimal(n)[i] == p[i]);
            }
        }
    } else {
        assert(decimal(n) =~= seq![c]);
        assert(decimal(n).drop_last() =~= Seq::<char>::empty());
        assert(digits_value(decimal(n)) == digits_value(Seq::<char>::empty()) * 10 + digit_value(c));
    }
    assert(digits_value(decimal(n)) == n);
    let d = decimal(n);
    assert(d[0] != '+');
    assert(unsigned_part(d) == d);
}

// ---------------------------------------------------------------- split at a marker

/// Whether `d` occurs in `s` at position `i`.
pub open spec fn occurs_at(s: Seq<char>, d: Seq<char>, i: int) -> bool {
    0 <= i && i + d.len() <= s.len() && s.subrange(i, i + d.len()) == d
}

/// The first position at or after `i` where `d` occurs in `s`.
pub open spec fn find_from(s: Seq<char>, d: Seq<char>, i: int) -> Option<int>
    decreases s.len() - i,
{
    if i < 0 || i >= s.len() || i + d.len() > s.len() {
        None
    } else if occurs_at(s, d, i) {
        Some(i)
    } else {
        find_from(s, d, i + 1)
    }
}

/// The pieces of `s` from position `start` on, cut at each occurrence of
/// `d` found from left to right (occurrences do not overlap).
pub open spec fn split_from(s: Seq<char>, d: Seq<char>, start: int) -> Seq<Seq<char>>
    recommends
        d.len() > 0,
    decreases s.len() - start,
    when 0 <= start <= s.len() && d.len() > 0
{
    match find_from(s, d, start) {
        None => seq![s.subrange(start, s.len() as int)],
        Some(i) => {
            if start <= i && i + d.len() <= s.len() {
                seq![s.subrange(start, i)] + split_from(s, d, i + d.len())
            } else {
                seq![]
            }
        },
    }
}

/// Splitting never gives no pieces: there is at least the text before the
/// first marker.
pub proof fn lemma_split_nonempty(s: Seq<char>, d: Seq<char>)
    requires
        d.len() > 0,
    ensures
        split_on(s, d).len() > 0,
{
    match find_from(s, d, 0) {
        None => {},
        Some(i) => {
            lemma_find_from_range(s, d, 0);
        },
    }
}

proof fn lemma_find_from_range(s: Seq<char>, d: Seq<char>, i: int)
    ensures
        find_from(s, d, i) matches Some(k) ==> i <= k && k + d.len() <= s.len(),
    decreases s.len() - i,
{
    if !(i < 0 || i >= s.len() || i + d.len() > s.len()) && !occurs_at(s, d, i) {
        lemma_find_from_range(s, d, i + 1);
    }
}

/// The pieces of `s` between the occurrences of `d`, as `str::split` with a
/// string pattern yields them.
pub open spec fn split_on(s: Seq<char>, d: Seq<char>) -> Seq<Seq<char>> {
    split_from(s, d, 0)
}

/// Whether `d` first occurs in `p + d` at its end: `p` holds no marker,
/// and no tail of `p` begins one.
pub open spec fn marker_free(p: Seq<char>, d: Seq<char>) -> bool {
    forall|k: int| 0 <= k < p.len() ==> !occurs_at(p + d, d, k)
}

proof fn lemma_find_none(s: Seq<char>, d: Seq<char>, i: int)
    requires
        0 <= i,
        forall|k: int| i <= k < s.len() ==> !occurs_at(s, d, k),
    ensures
        find_from(s, d, i) is None,
    decreases s.len() - i,
{
    if !(i >= s.len() || i + d.len() > s.len()) {
        lemma_find_none(s, d, i + 1);
    }
}

proof fn lemma_find_piece_end(s: Seq<char>, d: Seq<char>, start: int, p: Seq<char>, i: int)
    requires
        d.len() > 0,
        0 <= start,
        0 <= i <= p.len(),
        start + p.len() + d.len() <= s.len(),
        s.subrange(start, start + p.len() + d.len()) == p + d,
        marker_free(p, d),
    ensures
        find_from(s, d, start + i) == Some(start + p.len()),
    decreases p.len() - i,
{
    let w = p + d;
    if i < p.len() {
        assert(!occurs_at(w, d, i));
        assert(s.subrange(start + i, start + i + d.len()) =~= w.subrange(i, i + d.len()));
        assert(!occurs_at(s, d, start + i));
        lemma_find_piece_end(s, d, start, p, i + 1);
        assert(find_from(s, d, start + i) == find_from(s, d, start + i + 1));
    } else {
        assert(s.subrange(start + i, start + i + d.len()) =~= w.subrange(i, i + d.len()));
        assert(w.subrange(i, i + d.len()) =~= d);
        assert(occurs_at(s, d, start + i));
    }
}

proof fn lemma_join_front(ss: Seq<Seq<char>>, sep: Seq<char>)
    requires
        ss.len() >= 2,
    ensures
        join(ss, sep) == ss[0] + sep + join(ss.drop_first(), sep),
    decreases ss.len(),
{
    if ss.len() == 2 {
        assert(ss.drop_last() =~= seq![ss[0]]);
        assert(ss.drop_first() =~= seq![ss[1]]);
        assert(join(ss.drop_last(), sep) == ss[0]);
        assert(join(ss.drop_first(), sep) == ss[1]);
        assert(join(ss, sep) == join(ss.drop_last(), sep) + sep + ss.last());
    } else {
        let a = ss.drop_last();
        let b = ss.drop_first();
        lemma_join_front(a, sep);
        assert(a.drop_first() =~= b.drop_last());
        assert(b.last() == ss.last());
        assert(a[0] == ss[0]);
        assert(join(ss, sep) == join(a, sep) + sep + ss.last());
        assert(join(b, sep) == join(b.drop_last(), sep) + sep + b.last());
        assert(join(ss, sep) =~= ss[0] + sep + (join(b.drop_last(), sep) + sep + ss.last()));
    }
}

proof fn lemma_split_join_from(s: Seq<char>, d: Seq<char>, start: int, ss: Seq<Seq<char>>)
    requires
        d.len() > 0,
        ss.len() > 0,
        0 <= start <= s.len(),
        s.subrange(start, s.len() as int) == join(ss, d),
        forall|j: int| 0 <= j < ss.len() ==> marker_free(#[trigger] ss[j], d),
    ensures
        split_from(s, d, start) == ss,
    decreases ss.len(),
{
    let p = ss[0];
    if ss.len() == 1 {
        assert forall|k: int| start <= k < s.len() implies !occurs_at(s, d, k) by {
            if occurs_at(s, d, k) {
                let w = p + d;
                assert(marker_free(ss[0], d));
                assert(s.subrange(k, k + d.len()) =~= w.subrange(k - start, k - start + d.len()));
                assert(occurs_at(w, d, k - start));
            }
        }
        lemma_find_none(s, d, start);
        assert(s.subrange(start, s.len() as int) == p);
        assert(split_from(s, d, start) =~= ss);
    } else {
        lemma_join_front(ss, d);
        let rest = ss.drop_first();
        let next = start + p.len() + d.len();
        let t = s.subrange(start, s.len() as int);
        assert(t == p + d + join(rest, d));
        assert(t.len() == s.len() - start);
        assert(next <= s.len());
        assert forall|k: int| 0 <= k < p.len() + d.len() implies s.subrange(start, next)[k] == (p
            + d)[k] by {
            assert(s.subrange(start, next)[k] == t[k]);
            assert(t[k] == (p + d + join(rest, d))[k]);
        }
        assert(s.subrange(start, next) =~= p + d);
        assert(marker_free(ss[0], d));
        lemma_find_piece_end(s, d, start, p, 0);
        assert(s.subrange(start, start + p.len()) =~= s.subrange(start, next).subrange(0, p.len() as int));
        assert((p + d).subrange(0, p.len() as int) =~= p);
        assert(s.subrange(start, start + p.len()) =~= p);
        assert forall|k: int| 0 <= k < s.len() - next implies s.subrange(next, s.len() as int)[k]
            == join(rest, d)[k] by {
            assert(s.subrange(next, s.len() as int)[k] == t[k + p.len() + d.len()]);
            assert(t[k + p.len() + d.len()] == (p + d + join(rest, d))[k + p.len() + d.len()]);
        }
        assert(s.subrange(next, s.len() as int) =~= join(rest, d));
        assert forall|j: int| 0 <= j < rest.len() implies marker_free(#[trigger] rest[j], d) by {
            assert(rest[j] == ss[j + 1]);
        }
        lemma_split_join_from(s, d, next, rest);
        assert(split_from(s, d, start) =~= seq![p] + rest);
        assert(seq![p] + rest =~= ss);
    }
}

/// Splitting at a marker undoes joining with it, where no piece holds the
/// marker (nor ends in the first part of one).
pub proof fn split_undoes_join(ss: Seq<Seq<char>>, d: Seq<char>)
    requires
        d.len() > 0,
        ss.len() > 0,
        forall|j: int| 0 <= j < ss.len() ==> marker_free(#[trigger] ss[j], d),
    ensures
        split_on(join(ss, d), d) == ss,
{
    let s = join(ss, d);
    assert(s.subrange(0, s.len() as int) =~= s);
    lemma_split_join_from(s, d, 0, ss);
}

/// The characters of `s` from `a` up to `b`.
pub fn copy_range(s: &[char], a: usize, b: usize) -> (v: Vec<char>)
    requires
        a <= b <= s.len(),
    ensures
        v@ == s@.subrange(a as int, b as int),
{
    let mut v: Vec<char> = Vec::new();
    let mut i: usize = a;
    while i < b
        invariant
            a <= i <= b <= s.len(),
            v@ == s@.subrange(a as int, i as int),
        decreases b - i,
    {
        v.push(s[i]);
        i = i + 1;
        assert(v@ =~= s@.subrange(a as int, i as int));
    }
    v
}

/// Whether `d` occurs in `s` at position `i`.
fn occurs_at_exec(s: &[char], d: &[char], i: usize) -> (b: bool)
    requires
        i + d.len() <= s.len(),
    ensures
        b == occurs_at(s@, d@, i as int),
{
    let mut k: usize = 0;
    while k < d.len()
        invariant
            k <= d.len(),
            i + d.len() <= s.len(),
            s@.subrange(i as int, i + k) == d@.take(k as int),
        decreases d.len() - k,
    {
        if s[i + k] != d[k] {
            assert(s@.subrange(i as int, i + d.len())[k as int] != d@[k as int]);
            return false;
        }
        k = k + 1;
        assert(s@.subrange(i as int, i + k) =~= d@.take(k as int));
    }
    assert(d@.take(d.len() as int) =~= d@);
    true
}

/// The pieces of `s` between the occurrences of `d`.
pub fn split_at_marker(s: &[char], d: &[char]) -> (ps: Vec<Vec<char>>)
    requires
        d.len() > 0,
    ensures
        views(ps@) == split_on(s@, d@),
{
    let n = s.len();
    let m = d.len();
    let mut done: Vec<Vec<char>> = Vec::new();
    let mut start: usize = 0;
    let mut i: usize = 0;
    assert(views(done@) =~= seq![]);
    while i <= n && m <= n - i
        invariant
            start <= i <= n,
            n == s@.len(),
            m == d@.len(),
            m > 0,
            views(done@) + split_from(s@, d@, start as int) == split_on(s@, d@),
            find_from(s@, d@, start as int) == find_from(s@, d@, i as int),
        decreases n - i,
    {
        if occurs_at_exec(s, d, i) {
            let piece = copy_range(s, start, i);
            let ghost before = views(done@);
            proof {
                lemma_views_push(done@, piece);
                assert(split_from(s@, d@, start as int) == seq![piece@] + split_from(
                    s@,
                    d@,
                    i + m,
                ));
                assert(before + split_from(s@, d@, start as int) =~= before.push(piece@)
                    + split_from(s@, d@, i + m));
            }
            done.push(piece);
            start = i + m;
            i = start;
        } else {
            i = i + 1;
        }
    }
    let piece = copy_range(s, start, n);
    proof {
        lemma_views_push(done@, piece);
        assert(find_from(s@, d@, i as int) is None);
        assert(split_from(s@, d@, start as int) == seq![piece@]);
        assert(views(done@) + split_from(s@, d@, start as int) =~= views(done@).push(piece@));
    }
    done.push(piece);
    done
}

} // verus!
