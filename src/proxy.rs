//! Address rewriting of the intercepting chat proxy: every word of a line that
//! looks like a Boguscoin address is replaced by one fixed address.
use vstd::prelude::*;
use vstd::string::{StrSliceExecFns, StringExecFns};
use crate::chat::{alphanumeric, char_is_alphanumeric};

verus! {

/// The address that every Boguscoin address is rewritten to.
pub const TONYS_ACCOUNT: &'static str = "7YWHMfk9JZe0LM0g1ZauHuiSxhI";

/// Unicode's White_Space property: tab to carriage return, space, next line,
/// no-break space, ogham space mark, en quad to hair space, line and paragraph
/// separators, narrow no-break space, medium mathematical space, ideographic space.
pub open spec fn white_space(c: char) -> bool {
    let v = c as u32;
    ||| 0x09 <= v <= 0x0d
    ||| v == 0x20
    ||| v == 0x85
    ||| v == 0xa0
    ||| v == 0x1680
    ||| 0x2000 <= v <= 0x200a
    ||| v == 0x2028
    ||| v == 0x2029
    ||| v == 0x202f
    ||| v == 0x205f
    ||| v == 0x3000
}

/// Relies on std's `char::is_whitespace`: whether `c` has Unicode's
/// White_Space property.
#[verifier::external_body]
fn char_is_whitespace(c: char) -> (r: bool)
    ensures
        r == white_space(c),
{
    c.is_whitespace()
}

/// Number of bytes of `c` in UTF-8.
pub open spec fn utf8_len(c: char) -> nat {
    if (c as u32) < 0x80 {
        1
    } else if (c as u32) < 0x800 {
        2
    } else if (c as u32) < 0x10000 {
        3
    } else {
        4
    }
}

/// Number of bytes in UTF-8 of the characters of `w`.
pub open spec fn utf8_len_of(w: Seq<(char, bool)>) -> nat
    decreases w.len(),
{
    if w.len() == 0 {
        0
    } else {
        utf8_len_of(w.drop_last()) + utf8_len(w.last().0)
    }
}

/// Length of `s` once its trailing whitespace is removed.
pub open spec fn trimmed_len(s: Seq<char>) -> nat
    decreases s.len(),
{
    if s.len() > 0 && white_space(s.last()) {
        trimmed_len(s.drop_last())
    } else {
        s.len()
    }
}

/// Each character of `s` beside the flag `f` gives it: whether it is a letter
/// or a digit.
pub open spec fn marks(s: Seq<char>, f: Seq<bool>) -> Seq<(char, bool)> {
    Seq::new(s.len(), |i: int| (s[i], f[i]))
}

/// A word that looks like a Boguscoin address: it starts with a 7, takes 26
/// to 35 bytes, and is made of characters flagged as letters or digits.
pub open spec fn is_address(w: Seq<(char, bool)>) -> bool {
    &&& w.len() > 0
    &&& w[0].0 == '7'
    &&& 26 <= utf8_len_of(w) <= 35
    &&& forall|i: int| 0 <= i < w.len() ==> #[trigger] w[i].1
}

/// A word as it leaves the proxy.
pub open spec fn rewrite_word(w: Seq<(char, bool)>) -> Seq<char> {
    if is_address(w) {
        TONYS_ACCOUNT@
    } else {
        w.map_values(|p: (char, bool)| p.0)
    }
}

/// Index of the last space of `w`, or -1.
pub open spec fn last_space(w: Seq<(char, bool)>) -> int
    decreases w.len(),
{
    if w.len() == 0 {
        -1
    } else if w.last().0 == ' ' {
        w.len() - 1
    } else {
        last_space(w.drop_last())
    }
}

/// `w` with each of its space-separated words rewritten.
pub open spec fn rewrite(w: Seq<(char, bool)>) -> Seq<char>
    decreases w.len(),
{
    let k = last_space(w);
    if 0 <= k < w.len() {
        rewrite(w.subrange(0, k)) + seq![' '] + rewrite_word(w.subrange(k + 1, w.len() as int))
    } else {
        rewrite_word(w)
    }
}

/// A line whose characters carry the flags `f`, as the proxy passes it on:
/// trailing whitespace removed, words rewritten, and the final newline kept
/// if there was one.
pub open spec fn intercepted_marked(s: Seq<char>, f: Seq<bool>) -> Seq<char> {
    rewrite(marks(s, f).subrange(0, trimmed_len(s) as int)) + if s.len() > 0 && s.last()
        == '\n' {
        seq!['\n']
    } else {
        Seq::empty()
    }
}

/// A line as the proxy passes it on, each character flagged by Unicode's
/// alphanumeric property.
pub open spec fn intercepted(s: Seq<char>) -> Seq<char> {
    intercepted_marked(s, s.map_values(|c: char| alphanumeric(c)))
}

proof fn lemma_last_space_of_word(w: Seq<(char, bool)>, start: int, i: int)
    requires
        0 <= start <= i <= w.len(),
        start == 0 || w[start - 1].0 == ' ',
        forall|k: int| start <= k < i ==> w[k].0 != ' ',
    ensures
        last_space(w.subrange(0, i)) == start - 1,
    decreases i - start,
{
    let p = w.subrange(0, i);
    if i > start {
        assert(p.drop_last() =~= w.subrange(0, i - 1));
        lemma_last_space_of_word(w, start, i - 1);
    } else if start > 0 {
        assert(p.last() == w[start - 1]);
    }
}

proof fn lemma_utf8_len_of_prefix(w: Seq<(char, bool)>, n: int)
    requires
        0 <= n <= w.len(),
    ensures
        utf8_len_of(w.subrange(0, n)) <= utf8_len_of(w),
    decreases w.len() - n,
{
    if n < w.len() {
        lemma_utf8_len_of_prefix(w, n + 1);
        assert(w.subrange(0, n + 1).drop_last() =~= w.subrange(0, n));
    } else {
        assert(w.subrange(0, n) =~= w);
    }
}

fn char_utf8_len(c: char) -> (r: usize)
    ensures
        r == utf8_len(c),
{
    if (c as u32) < 0x80 {
        1
    } else if (c as u32) < 0x800 {
        2
    } else if (c as u32) < 0x10000 {
        3
    } else {
        4
    }
}

fn is_address_at(text: &str, flags: &Vec<bool>, from: usize, to: usize) -> (r: bool)
    requires
        from <= to <= text@.len(),
        flags@.len() == text@.len(),
    ensures
        r == is_address(marks(text@, flags@).subrange(from as int, to as int)),
{
    let ghost w = marks(text@, flags@).subrange(from as int, to as int);
    if from == to || text.get_char(from) != '7' {
        return false;
    }
    let mut bytes: usize = 0;
    let mut k: usize = from;
    while k < to
        invariant
            from <= k <= to <= text@.len(),
            flags@.len() == text@.len(),
            w == marks(text@, flags@).subrange(from as int, to as int),
            bytes == utf8_len_of(w.subrange(0, k - from)),
            bytes <= 35,
            forall|m: int| 0 <= m < k - from ==> #[trigger] w[m].1,
        decreases to - k,
    {
        let c = text.get_char(k);
        assert(w.subrange(0, k + 1 - from).drop_last() =~= w.subrange(0, k - from));
        assert(w.subrange(0, k + 1 - from).last() == (c, flags@[k as int]));
        if !flags[k] {
            assert(!w[k - from].1);
            return false;
        }
        bytes = bytes + char_utf8_len(c);
        if bytes > 35 {
            proof {
                lemma_utf8_len_of_prefix(w, k + 1 - from);
            }
            return false;
        }
        k = k + 1;
    }
    assert(w.subrange(0, to - from) =~= w);
    26 <= bytes
}

fn append_word(out: &mut String, text: &str, flags: &Vec<bool>, from: usize, to: usize)
    requires
        from <= to <= text@.len(),
        flags@.len() == text@.len(),
    ensures
        final(out)@ == old(out)@ + rewrite_word(
            marks(text@, flags@).subrange(from as int, to as int),
        ),
{
    if is_address_at(text, flags, from, to) {
        out.append(TONYS_ACCOUNT);
    } else {
        let word = text.substring_char(from, to);
        assert(word@ =~= marks(text@, flags@).subrange(from as int, to as int).map_values(
            |p: (char, bool)| p.0,
        ));
        out.append(word);
    }
}

/// Rewrites one line whose characters carry the flags `alnum` (whether each is
/// a letter or a digit): trailing whitespace is removed, every word (the text
/// between single spaces) that looks like a Boguscoin address is replaced by
/// the fixed address, and a final newline is kept.
pub fn intercept_marked(message: &str, alnum: &Vec<bool>) -> (r: String)
    requires
        alnum@.len() == message@.len(),
    ensures
        r@ == intercepted_marked(message@, alnum@),
{
    let ghost s = message@;
    let ghost m = marks(s, alnum@);
    let n = message.unicode_len();
    let has_newline = n > 0 && message.get_char(n - 1) == '\n';
    let mut t: usize = n;
    assert(s.subrange(0, n as int) =~= s);
    while t > 0 && char_is_whitespace(message.get_char(t - 1))
        invariant
            s == message@,
            n == s.len(),
            t <= n,
            trimmed_len(s) == trimmed_len(s.subrange(0, t as int)),
        decreases t,
    {
        assert(s.subrange(0, t as int).drop_last() =~= s.subrange(0, t - 1));
        t = t - 1;
    }
    proof {
        if t > 0 {
            assert(s.subrange(0, t as int).last() == s[t - 1]);
        }
    }
    assert(trimmed_len(s) == t);
    let mut out = String::new();
    let mut start: usize = 0;
    let mut i: usize = 0;
    proof {
        reveal_strlit(" ");
        reveal_strlit("\n");
    }
    while i < t
        invariant
            s == message@,
            m == marks(s, alnum@),
            alnum@.len() == n,
            n == s.len(),
            t <= n,
            trimmed_len(s) == t,
            start <= i <= t,
            start == 0 || m[start - 1].0 == ' ',
            forall|k: int| start <= k < i ==> m[k].0 != ' ',
            out@ == (if start == 0 {
                Seq::<char>::empty()
            } else {
                rewrite(m.subrange(0, start - 1)) + seq![' ']
            }),
            " "@ == seq![' '],
        decreases t - i,
    {
        if message.get_char(i) == ' ' {
            append_word(&mut out, message, alnum, start, i);
            out.append(" ");
            proof {
                lemma_last_space_of_word(m, start as int, i as int);
                let p = m.subrange(0, i as int);
                if start > 0 {
                    assert(p.subrange(0, start - 1) =~= m.subrange(0, start - 1));
                    assert(p.subrange(start as int, p.len() as int) =~= m.subrange(
                        start as int,
                        i as int,
                    ));
                } else {
                    assert(p =~= m.subrange(start as int, i as int));
                }
            }
            start = i + 1;
        }
        i = i + 1;
    }
    append_word(&mut out, message, alnum, start, t);
    proof {
        lemma_last_space_of_word(m, start as int, t as int);
        let p = m.subrange(0, t as int);
        if start > 0 {
            assert(p.subrange(0, start - 1) =~= m.subrange(0, start - 1));
            assert(p.subrange(start as int, p.len() as int) =~= m.subrange(start as int, t as int));
        } else {
            assert(p =~= m.subrange(start as int, t as int));
        }
        assert(out@ == rewrite(p));
    }
    if has_newline {
        out.append("\n");
    }
    out
}

/// Rewrites one line: trailing whitespace is removed, every word (the text
/// between single spaces) that looks like a Boguscoin address is replaced by
/// the fixed address, and a final newline is kept.
pub fn intercept_message(message: &str) -> (r: String)
    ensures
        r@ == intercepted(message@),
{
    let n = message.unicode_len();
    let mut alnum: Vec<bool> = Vec::new();
    let mut i: usize = 0;
    while i < n
        invariant
            n == message@.len(),
            i <= n,
            alnum@ == message@.subrange(0, i as int).map_values(|c: char| alphanumeric(c)),
        decreases n - i,
    {
        alnum.push(char_is_alphanumeric(message.get_char(i)));
        i = i + 1;
        assert(alnum@ =~= message@.subrange(0, i as int).map_values(|c: char| alphanumeric(c)));
    }
    assert(message@.subrange(0, n as int) =~= message@);
    intercept_marked(message, &alnum)
}

} // verus!
