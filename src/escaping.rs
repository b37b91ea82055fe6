//! Brace escapes: `\{{..}}`, `{\{..}}` and `\{\{..}}` stand for literal `{{..}}` and must
//! survive expression evaluation; `\\{{..}}` is a literal backslash before a live expression.
//!
//! `process_escapes` marks escaped braces with placeholders built from NUL characters;
//! `restore_escaped_braces` turns the placeholders back into `{{` and `}}`.
use vstd::prelude::*;
use crate::text::{chars_of, string_of};

verus! {

/// The placeholder that stands for an escaped `{{`.
pub open spec fn open_mark() -> Seq<char> {
    seq!['\0', 'E', 'S', 'C', '_', 'O', 'P', 'E', 'N', '\0']
}

/// The placeholder that stands for the `}}` that closes an escaped block.
pub open spec fn close_mark() -> Seq<char> {
    seq!['\0', 'E', 'S', 'C', '_', 'C', 'L', 'O', 'S', 'E', '\0']
}

pub open spec fn open_braces() -> Seq<char> {
    seq!['{', '{']
}

pub open spec fn close_braces() -> Seq<char> {
    seq!['}', '}']
}

/// Whether position `k` of `s` holds `c`.
pub open spec fn has_at(s: Seq<char>, k: int, c: char) -> bool {
    0 <= k < s.len() && s[k] == c
}

/// Rewrites the escape forms of `s` outside any escaped block: an escaped block opens with
/// `o` and closes with `cl`, its interior copied unchanged.
pub open spec fn escape_with(s: Seq<char>, o: Seq<char>, cl: Seq<char>) -> Seq<char>
    decreases s.len(),
{
    if s.len() == 0 {
        Seq::empty()
    } else if s[0] == '\\' && has_at(s, 1, '{') && has_at(s, 2, '{') {
        o + escaped_body(s.skip(3), 1, o, cl)
    } else if s[0] == '\\' && has_at(s, 1, '{') && has_at(s, 2, '\\') && has_at(s, 3, '{') {
        o + escaped_body(s.skip(4), 1, o, cl)
    } else if s[0] == '\\' && has_at(s, 1, '\\') && has_at(s, 2, '{') && has_at(s, 3, '{') {
        seq!['\\'] + escape_with(s.skip(2), o, cl)
    } else if s[0] == '{' && has_at(s, 1, '\\') && has_at(s, 2, '{') {
        o + escaped_body(s.skip(3), 1, o, cl)
    } else {
        seq![s[0]] + escape_with(s.skip(1), o, cl)
    }
}

/// The interior of an escaped block at nesting `depth` (at least 1): nested `{{ }}` pairs
/// are copied, and the `}}` that brings the depth to zero becomes `cl`.
pub open spec fn escaped_body(s: Seq<char>, depth: nat, o: Seq<char>, cl: Seq<char>) -> Seq<
    char,
>
    decreases s.len(),
{
    if s.len() == 0 {
        Seq::empty()
    } else if s[0] == '{' && has_at(s, 1, '{') {
        open_braces() + escaped_body(s.skip(2), depth + 1, o, cl)
    } else if s[0] == '}' && has_at(s, 1, '}') {
        if depth <= 1 {
            cl + escape_with(s.skip(2), o, cl)
        } else {
            close_braces() + escaped_body(s.skip(2), (depth - 1) as nat, o, cl)
        }
    } else {
        seq![s[0]] + escaped_body(s.skip(1), depth, o, cl)
    }
}

/// What `process_escapes` returns: escaped blocks delimited by the placeholders.
pub open spec fn escaped(s: Seq<char>) -> Seq<char> {
    escape_with(s, open_mark(), close_mark())
}

/// The text that the escapes of `s` denote: each escaped block delimited by literal braces.
pub open spec fn unescaped(s: Seq<char>) -> Seq<char> {
    escape_with(s, open_braces(), close_braces())
}

/// Whether `s` holds `p` from position `k` on.
pub open spec fn has_prefix_at(s: Seq<char>, k: int, p: Seq<char>) -> bool {
    0 <= k && k + p.len() <= s.len() && s.subrange(k, k + p.len()) == p
}

/// One left-to-right pass that turns each placeholder into the braces it stands for.
pub open spec fn restored(s: Seq<char>) -> Seq<char>
    decreases s.len(),
{
    if s.len() == 0 {
        Seq::empty()
    } else if has_prefix_at(s, 0, open_mark()) {
        open_braces() + restored(s.skip(open_mark().len() as int))
    } else if has_prefix_at(s, 0, close_mark()) {
        close_braces() + restored(s.skip(close_mark().len() as int))
    } else {
        seq![s[0]] + restored(s.skip(1))
    }
}

fn at(v: &Vec<char>, k: usize, c: char) -> (r: bool)
    ensures
        r == has_at(v@, k as int, c),
{
    k < v.len() && v[k] == c
}

fn push_seq(out: &mut Vec<char>, p: &[char])
    ensures
        final(out)@ == old(out)@ + p@,
{
    let mut i: usize = 0;
    while i < p.len()
        invariant
            0 <= i <= p@.len(),
            out@ == old(out)@ + p@.take(i as int),
        decreases p@.len() - i,
    {
        out.push(p[i]);
        i += 1;
        assert(p@.take(i as int) == p@.take(i - 1 as int).push(p@[i - 1 as int]));
    }
    assert(p@.take(p@.len() as int) == p@);
}

fn push_open(out: &mut Vec<char>)
    ensures
        final(out)@ == old(out)@ + open_mark(),
{
    let m = ['\0', 'E', 'S', 'C', '_', 'O', 'P', 'E', 'N', '\0'];
    push_seq(out, &m);
    assert(m@ == open_mark());
}

fn push_close(out: &mut Vec<char>)
    ensures
        final(out)@ == old(out)@ + close_mark(),
{
    let m = ['\0', 'E', 'S', 'C', '_', 'C', 'L', 'O', 'S', 'E', '\0'];
    push_seq(out, &m);
    assert(m@ == close_mark());
}

/// Replaces the escaped braces of `input` with placeholders, so that expression
/// evaluation leaves them alone.
pub fn process_escapes(input: &str) -> (r: String)
    ensures
        r@ == escaped(input@),
{
    let v = chars_of(input);
    let n = v.len();
    let ghost s = v@;
    let mut out: Vec<char> = Vec::new();
    let mut i: usize = 0;
    let mut depth: usize = 0;
    assert(s.skip(0) == s);
    assert(out@ + escaped(s) == escaped(s));
    while i < n
        invariant
            n == v@.len(),
            s == v@,
            0 <= i <= n,
            depth <= i,
            depth == 0 ==> out@ + escaped(s.skip(i as int)) == escaped(s),
            depth > 0 ==> out@ + escaped_body(s.skip(i as int), depth as nat, open_mark(), close_mark())
                == escaped(s),
        decreases n - i,
    {
        let ghost t = s.skip(i as int);
        let ghost o = open_mark();
        let ghost cl = close_mark();
        let c = v[i];
        assert(t[0] == c);
        assert forall|k: int, ch: char| 0 <= k implies #[trigger] has_at(t, k, ch) == has_at(s, i + k, ch) by {}
        if depth == 0 {
            if c == '\\' && at(&v, i + 1, '{') && at(&v, i + 2, '{') {
                assert(t.skip(3) == s.skip(i + 3));
                push_open(&mut out);
                i += 3;
                depth = 1;
            } else if c == '\\' && at(&v, i + 1, '{') && at(&v, i + 2, '\\') && at(&v, i + 3, '{') {
                assert(t.skip(4) == s.skip(i + 4));
                push_open(&mut out);
                i += 4;
                depth = 1;
            } else if c == '\\' && at(&v, i + 1, '\\') && at(&v, i + 2, '{') && at(&v, i + 3, '{') {
                assert(t.skip(2) == s.skip(i + 2));
                out.push('\\');
                i += 2;
            } else if c == '{' && at(&v, i + 1, '\\') && at(&v, i + 2, '{') {
                assert(t.skip(3) == s.skip(i + 3));
                push_open(&mut out);
                i += 3;
                depth = 1;
            } else {
                assert(t.skip(1) == s.skip(i + 1));
                out.push(c);
                i += 1;
            }
        } else {
            if c == '{' && at(&v, i + 1, '{') {
                assert(t.skip(2) == s.skip(i + 2));
                out.push('{');
                out.push('{');
                i += 2;
                depth += 1;
            } else if c == '}' && at(&v, i + 1, '}') {
                assert(t.skip(2) == s.skip(i + 2));
                if depth == 1 {
                    push_close(&mut out);
                    depth = 0;
                } else {
                    out.push('}');
                    out.push('}');
                    depth -= 1;
                }
                i += 2;
            } else {
                assert(t.skip(1) == s.skip(i + 1));
                out.push(c);
                i += 1;
            }
        }
    }
    assert(s.skip(n as int).len() == 0);
    string_of(&out)
}

fn has_prefix(v: &Vec<char>, k: usize, p: &[char]) -> (r: bool)
    ensures
        r == has_prefix_at(v@, k as int, p@),
{
    if k > v.len() || p.len() > v.len() - k {
        return false;
    }
    let end = k + p.len();
    let mut j: usize = 0;
    while j < p.len()
        invariant
            end == k + p@.len(),
            k + p@.len() <= v@.len(),
            0 <= j <= p@.len(),
            forall|m: int| 0 <= m < j ==> v@[k + m] == p@[m],
        decreases p@.len() - j,
    {
        if v[k + j] != p[j] {
            assert(v@.subrange(k as int, k + p@.len())[j as int] != p@[j as int]);
            return false;
        }
        j += 1;
    }
    assert(v@.subrange(k as int, k + p@.len()) =~= p@);
    true
}

/// Turns every placeholder left by `process_escapes` back into literal braces.
pub fn restore_escaped_braces(input: &str) -> (r: String)
    ensures
        r@ == restored(input@),
{
    let v = chars_of(input);
    let n = v.len();
    let ghost s = v@;
    let om = ['\0', 'E', 'S', 'C', '_', 'O', 'P', 'E', 'N', '\0'];
    let cm = ['\0', 'E', 'S', 'C', '_', 'C', 'L', 'O', 'S', 'E', '\0'];
    assert(om@ == open_mark());
    assert(cm@ == close_mark());
    let mut out: Vec<char> = Vec::new();
    let mut i: usize = 0;
    assert(s.skip(0) == s);
    assert(out@ + restored(s) == restored(s));
    while i < n
        invariant
            n == v@.len(),
            s == v@,
            om@ == open_mark(),
            cm@ == close_mark(),
            0 <= i <= n,
            out@ + restored(s.skip(i as int)) == restored(s),
        decreases n - i,
    {
        let ghost t = s.skip(i as int);
        assert(has_prefix_at(t, 0, open_mark()) == has_prefix_at(s, i as int, open_mark())) by {
            if i + 10 <= n {
                assert(t.subrange(0, 10) == s.subrange(i as int, i + 10));
            }
        }
        assert(has_prefix_at(t, 0, close_mark()) == has_prefix_at(s, i as int, close_mark())) by {
            if i + 11 <= n {
                assert(t.subrange(0, 11) == s.subrange(i as int, i + 11));
            }
        }
        if has_prefix(&v, i, &om) {
            assert(t.skip(10) == s.skip(i + 10));
            out.push('{');
            out.push('{');
            i += 10;
        } else if has_prefix(&v, i, &cm) {
            assert(t.skip(11) == s.skip(i + 11));
            out.push('}');
            out.push('}');
            i += 11;
        } else {
            assert(t.skip(1) == s.skip(i + 1));
            out.push(v[i]);
            i += 1;
        }
    }
    assert(s.skip(n as int).len() == 0);
    string_of(&out)
}

/// Whether `s` holds no NUL character, the byte the placeholders are built from.
pub open spec fn free_of_marks(s: Seq<char>) -> bool {
    forall|k: int| 0 <= k < s.len() ==> s[k] != '\0'
}

proof fn lemma_restored_open(t: Seq<char>)
    ensures
        restored(open_mark() + t) == open_braces() + restored(t),
{
    let x = open_mark() + t;
    assert(x.subrange(0, 10) == open_mark());
    assert(x.skip(10) == t);
}

proof fn lemma_restored_close(t: Seq<char>)
    ensures
        restored(close_mark() + t) == close_braces() + restored(t),
{
    let x = close_mark() + t;
    assert(x.subrange(0, 10)[5] != open_mark()[5]);
    assert(!has_prefix_at(x, 0, open_mark()));
    assert(x.subrange(0, 11) == close_mark());
    assert(x.skip(11) == t);
}

proof fn lemma_restored_char(c: char, t: Seq<char>)
    requires
        c != '\0',
    ensures
        restored(seq![c] + t) == seq![c] + restored(t),
{
    let x = seq![c] + t;
    if x.len() >= 10 {
        assert(x.subrange(0, 10)[0] != open_mark()[0]);
    }
    if x.len() >= 11 {
        assert(x.subrange(0, 11)[0] != close_mark()[0]);
    }
    assert(x.skip(1) == t);
}

proof fn lemma_restored_pair(c: char, t: Seq<char>)
    requires
        c != '\0',
    ensures
        restored(seq![c, c] + t) == seq![c, c] + restored(t),
{
    assert(seq![c, c] + t == seq![c] + (seq![c] + t));
    lemma_restored_char(c, seq![c] + t);
    lemma_restored_char(c, t);
    assert(seq![c] + (seq![c] + restored(t)) == seq![c, c] + restored(t));
}

proof fn lemma_restore_escaped(s: Seq<char>)
    requires
        free_of_marks(s),
    ensures
        restored(escaped(s)) == unescaped(s),
    decreases s.len(), 1nat,
{
    let o = open_mark();
    let cl = close_mark();
    let b = open_braces();
    let e = close_braces();
    if s.len() == 0 {
    } else if s[0] == '\\' && has_at(s, 1, '{') && has_at(s, 2, '{') {
        lemma_restore_body(s.skip(3), 1);
        lemma_restored_open(escaped_body(s.skip(3), 1, o, cl));
    } else if s[0] == '\\' && has_at(s, 1, '{') && has_at(s, 2, '\\') && has_at(s, 3, '{') {
        lemma_restore_body(s.skip(4), 1);
        lemma_restored_open(escaped_body(s.skip(4), 1, o, cl));
    } else if s[0] == '\\' && has_at(s, 1, '\\') && has_at(s, 2, '{') && has_at(s, 3, '{') {
        lemma_restore_escaped(s.skip(2));
        lemma_restored_char('\\', escape_with(s.skip(2), o, cl));
    } else if s[0] == '{' && has_at(s, 1, '\\') && has_at(s, 2, '{') {
        lemma_restore_body(s.skip(3), 1);
        lemma_restored_open(escaped_body(s.skip(3), 1, o, cl));
    } else {
        lemma_restore_escaped(s.skip(1));
        lemma_restored_char(s[0], escape_with(s.skip(1), o, cl));
    }
}

proof fn lemma_restore_body(s: Seq<char>, depth: nat)
    requires
        free_of_marks(s),
    ensures
        restored(escaped_body(s, depth, open_mark(), close_mark())) == escaped_body(
            s,
            depth,
            open_braces(),
            close_braces(),
        ),
    decreases s.len(), 0nat,
{
    let o = open_mark();
    let cl = close_mark();
    if s.len() == 0 {
    } else if s[0] == '{' && has_at(s, 1, '{') {
        lemma_restore_body(s.skip(2), depth + 1);
        lemma_restored_pair('{', escaped_body(s.skip(2), depth + 1, o, cl));
    } else if s[0] == '}' && has_at(s, 1, '}') {
        if depth <= 1 {
            lemma_restore_escaped(s.skip(2));
            lemma_restored_close(escape_with(s.skip(2), o, cl));
        } else {
            lemma_restore_body(s.skip(2), (depth - 1) as nat);
            lemma_restored_pair('}', escaped_body(s.skip(2), (depth - 1) as nat, o, cl));
        }
    } else {
        lemma_restore_body(s.skip(1), depth);
        lemma_restored_char(s[0], escaped_body(s.skip(1), depth, o, cl));
    }
}

/// Escaping and then restoring a text free of NUL characters yields exactly the text its
/// escapes denote: every escaped block comes back delimited by literal `{{` and `}}`.
pub proof fn law_restore_after_escape(s: Seq<char>)
    requires
        free_of_marks(s),
    ensures
        restored(escaped(s)) == unescaped(s),
{
    lemma_restore_escaped(s);
}

/// A text without any backslash holds no escape: `process_escapes` leaves it, and every
/// `{{expr}}` span in it, exactly as it is.
pub proof fn law_unescaped_text_untouched(s: Seq<char>)
    requires
        forall|k: int| 0 <= k < s.len() ==> s[k] != '\\',
    ensures
        escaped(s) == s,
    decreases s.len(),
{
    if s.len() > 0 {
        assert(!has_at(s, 1, '\\'));
        law_unescaped_text_untouched(s.skip(1));
        assert(seq![s[0]] + s.skip(1) == s);
    }
}

} // verus!
