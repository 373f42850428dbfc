//! Placing the shell wrapper block in a shell start-up file.
use vstd::prelude::*;
use crate::matching::{contains_text, occurs_in};
use crate::records::chars_equal;
use crate::text::{append_chars, chars_of, string_from, sub_chars};

verus! {

/// The line that opens the wrapper block.
pub const WRAPPER_START: &'static str = "# >>> goto init >>>";

/// The line that closes the wrapper block.
pub const WRAPPER_END: &'static str = "# <<< goto init <<<";

/// `n` occurs in `h` at position `i`.
pub open spec fn occurs_at(h: Seq<char>, n: Seq<char>, i: int) -> bool {
    0 <= i && i + n.len() <= h.len() && h.subrange(i, i + n.len()) == n
}

/// `i` is where `n` first occurs in `h`.
pub open spec fn first_at(h: Seq<char>, n: Seq<char>, i: int) -> bool {
    occurs_at(h, n, i) && forall|j: int| 0 <= j < i ==> !#[trigger] occurs_at(h, n, j)
}

pub open spec fn newline_if(b: bool) -> Seq<char> {
    if b {
        seq!['\n']
    } else {
        seq![]
    }
}

/// `text` with its first block from `sm` to the first `em` after it
/// replaced by `snippet`, kept on lines of its own; `text` unchanged when
/// there is no such block.
pub open spec fn replace_block(text: Seq<char>, snippet: Seq<char>, sm: Seq<char>, em: Seq<char>) -> Seq<char> {
    if exists|s: int| #[trigger] first_at(text, sm, s) && exists|e: int| #[trigger] first_at(text.subrange(s, text.len() as int), em, e) {
        let s = choose|s: int| #[trigger] first_at(text, sm, s) && exists|e: int| #[trigger] first_at(text.subrange(s, text.len() as int), em, e);
        let e = choose|e: int| #[trigger] first_at(text.subrange(s, text.len() as int), em, e);
        let end = s + e + em.len();
        let pre = text.subrange(0, s);
        let post = text.subrange(end, text.len() as int);
        pre + newline_if(pre.len() > 0 && pre.last() != '\n') + snippet + if post.len() > 0 {
            newline_if(post[0] != '\n') + post
        } else {
            seq![]
        }
    } else {
        text
    }
}

/// Where `n` first occurs in `h`.
fn find_first(h: &Vec<char>, n: &Vec<char>) -> (r: Option<usize>)
    ensures
        match r {
            Some(i) => first_at(h@, n@, i as int),
            None => forall|i: int| !#[trigger] occurs_at(h@, n@, i),
        },
{
    if n.len() > h.len() {
        return None;
    }
    let mut i: usize = 0;
    while i <= h.len() - n.len()
        invariant
            n.len() <= h.len(),
            i <= h.len() - n.len() + 1,
            forall|a: int| 0 <= a < i ==> !#[trigger] occurs_at(h@, n@, a),
        decreases h.len() - n.len() + 1 - i,
    {
        let mut j: usize = 0;
        while j < n.len() && h[i + j] == n[j]
            invariant
                i + n.len() <= h.len(),
                j <= n.len(),
                forall|b: int| 0 <= b < j ==> h@[i + b] == n@[b],
            decreases n.len() - j,
        {
            j = j + 1;
        }
        if j == n.len() {
            assert(h@.subrange(i as int, i + n.len()) =~= n@);
            return Some(i);
        }
        assert(h@.subrange(i as int, i + n.len())[j as int] != n@[j as int]);
        i = i + 1;
    }
    None
}

/// The start-up file `text` with its wrapper block, from the opening line to
/// the first closing line after it, replaced by `snippet`; unchanged when it
/// holds no such block.
pub fn ReplaceWrapperBlock(text: &str, snippet: &str) -> (r: String)
    ensures
        r@ == replace_block(text@, snippet@, WRAPPER_START@, WRAPPER_END@),
{
    let t = chars_of(text);
    let sm = chars_of(WRAPPER_START);
    let em = chars_of(WRAPPER_END);
    let ghost spec_ok = exists|s: int| #[trigger] first_at(text@, sm@, s) && exists|e: int| #[trigger] first_at(text@.subrange(s, text@.len() as int), em@, e);
    match find_first(&t, &sm) {
        Some(start) => {
            let rest = sub_chars(&t, start, t.len());
            match find_first(&rest, &em) {
                Some(end) => {
                    proof {
                        assert(first_at(text@, sm@, start as int));
                        assert(first_at(text@.subrange(start as int, text@.len() as int), em@, end as int));
                        let s2 = choose|s: int| #[trigger] first_at(text@, sm@, s) && exists|e: int| #[trigger] first_at(text@.subrange(s, text@.len() as int), em@, e);
                        if s2 != start as int {
                            if s2 < start {
                                assert(!occurs_at(text@, sm@, s2));
                            } else {
                                assert(!occurs_at(text@, sm@, start as int));
                            }
                        }
                        let e2 = choose|e: int| #[trigger] first_at(text@.subrange(s2, text@.len() as int), em@, e);
                        if e2 != end as int {
                            if e2 < end {
                                assert(!occurs_at(rest@, em@, e2));
                            } else {
                                assert(!occurs_at(rest@, em@, end as int));
                            }
                        }
                    }
                    let endIdx = start + end + em.len();
                    let mut out = sub_chars(&t, 0, start);
                    if start > 0 && t[start - 1] != '\n' {
                        out.push('\n');
                    }
                    append_chars(&mut out, &chars_of(snippet));
                    if endIdx < t.len() {
                        if t[endIdx] != '\n' {
                            out.push('\n');
                        }
                        append_chars(&mut out, &sub_chars(&t, endIdx, t.len()));
                    }
                    return string_from(&out);
                },
                None => {
                    proof {
                        if spec_ok {
                            let s2 = choose|s: int| #[trigger] first_at(text@, sm@, s) && exists|e: int| #[trigger] first_at(text@.subrange(s, text@.len() as int), em@, e);
                            if s2 != start as int {
                                if s2 < start {
                                    assert(!occurs_at(text@, sm@, s2));
                                } else {
                                    assert(!occurs_at(text@, sm@, start as int));
                                }
                            }
                            let e2 = choose|e: int| #[trigger] first_at(text@.subrange(s2, text@.len() as int), em@, e);
                            assert(!occurs_at(rest@, em@, e2));
                        }
                    }
                },
            }
        },
        None => {
            proof {
                if spec_ok {
                    let s2 = choose|s: int| #[trigger] first_at(text@, sm@, s) && exists|e: int| #[trigger] first_at(text@.subrange(s, text@.len() as int), em@, e);
                    assert(!occurs_at(text@, sm@, s2));
                }
            }
        },
    }
    string_from(&t)
}

/// `t` with every occurrence of `n`, scanning left to right, taken out.
pub open spec fn remove_all(t: Seq<char>, n: Seq<char>) -> Seq<char>
    decreases t.len(),
{
    if n.len() > 0 && exists|i: int| #[trigger] first_at(t, n, i) {
        let i = choose|i: int| #[trigger] first_at(t, n, i);
        t.subrange(0, i) + remove_all(t.subrange(i + n.len(), t.len() as int), n)
    } else {
        t
    }
}

proof fn lemma_first_unique(t: Seq<char>, n: Seq<char>, i: int, j: int)
    requires
        first_at(t, n, i),
        first_at(t, n, j),
    ensures
        i == j,
{
    if i < j {
        assert(!occurs_at(t, n, i));
    } else if j < i {
        assert(!occurs_at(t, n, j));
    }
}

/// `t` with every occurrence of `n` taken out, as `str::replace(n, "")`
/// leaves it.
pub fn remove_text(t: &str, n: &str) -> (r: String)
    ensures
        r@ == remove_all(t@, n@),
{
    let tc = chars_of(t);
    let nc = chars_of(n);
    if nc.len() == 0 {
        return string_from(&tc);
    }
    let mut out: Vec<char> = Vec::new();
    let mut pos: usize = 0;
    assert(tc@.subrange(0, tc.len() as int) == tc@);
    assert(out@ + remove_all(t@, n@) == remove_all(t@, n@));
    loop
        invariant
            tc@ == t@,
            nc@ == n@,
            nc.len() > 0,
            pos <= tc.len(),
            remove_all(t@, n@) == out@ + remove_all(tc@.subrange(pos as int, tc.len() as int), n@),
        decreases tc.len() - pos,
    {
        let rest = sub_chars(&tc, pos, tc.len());
        match find_first(&rest, &nc) {
            Some(i) => {
                proof {
                    let c = choose|k: int| #[trigger] first_at(rest@, n@, k);
                    lemma_first_unique(rest@, n@, c, i as int);
                    assert(rest@.subrange(i + nc.len(), rest.len() as int) == tc@.subrange(
                        pos + i + nc.len(),
                        tc.len() as int,
                    ));
                    assert(rest@.subrange(0, i as int) == tc@.subrange(pos as int, pos + i));
                }
                let ghost before = out@;
                append_chars(&mut out, &sub_chars(&tc, pos, pos + i));
                assert(before + (tc@.subrange(pos as int, pos + i) + remove_all(
                    tc@.subrange(pos + i + nc.len(), tc.len() as int),
                    n@,
                )) == out@ + remove_all(tc@.subrange(pos + i + nc.len(), tc.len() as int), n@));
                pos = pos + i + nc.len();
            },
            None => {
                proof {
                    if exists|k: int| #[trigger] first_at(rest@, n@, k) {
                        let c = choose|k: int| #[trigger] first_at(rest@, n@, k);
                        assert(!occurs_at(rest@, n@, c));
                    }
                }
                append_chars(&mut out, &rest);
                return string_from(&out);
            },
        }
    }
}

/// What installing the wrapper did to the start-up file.
#[derive(Clone, Copy, Debug, PartialEq, Eq, Structural)]
pub enum WrapperAction {
    Added,
    Updated,
    Skipped,
}

/// `x`, with a line break added unless it is empty or already ends in one.
pub open spec fn ended_line(x: Seq<char>) -> Seq<char> {
    if x.len() > 0 && x.last() != '\n' {
        x.push('\n')
    } else {
        x
    }
}

/// The start-up file holds both lines of a wrapper block.
pub open spec fn has_block(c: Seq<char>) -> bool {
    occurs_in(WRAPPER_START@, c) && occurs_in(WRAPPER_END@, c)
}

/// The wrapper, in any of its forms, is already in the start-up file.
pub open spec fn wrapper_in(c: Seq<char>, snippet: Seq<char>, body: Seq<char>) -> bool {
    has_block(c) || occurs_in(snippet, c) || occurs_in(body, c)
}

/// The start-up file `c` after installing the wrapper `snippet` (whose
/// lines between the markers are `body`), and what was done.
pub open spec fn planned_install(
    c: Seq<char>,
    snippet: Seq<char>,
    body: Seq<char>,
    force: bool,
) -> (Seq<char>, WrapperAction) {
    let present = wrapper_in(c, snippet, body);
    let done = if present {
        WrapperAction::Updated
    } else {
        WrapperAction::Added
    };
    if present && !force {
        (c, WrapperAction::Skipped)
    } else if has_block(c) {
        let r = replace_block(c, snippet, WRAPPER_START@, WRAPPER_END@);
        (r, if r == c {
            WrapperAction::Skipped
        } else {
            done
        })
    } else if occurs_in(body, c) {
        (ended_line(remove_all(c, body)) + snippet + seq!['\n'], done)
    } else if occurs_in(snippet, c) {
        (c, WrapperAction::Skipped)
    } else {
        (ended_line(c) + snippet + seq!['\n'], done)
    }
}

fn ended_line_chars(x: &mut Vec<char>)
    ensures
        final(x)@ == ended_line(old(x)@),
{
    if x.len() > 0 && x[x.len() - 1] != '\n' {
        x.push('\n');
    }
}

/// Whether the start-up file `text` already holds the wrapper.
pub fn WrapperPresentIn(text: &str, snippet: &str, body: &str) -> (r: bool)
    ensures
        r == wrapper_in(text@, snippet@, body@),
{
    (contains_text(text, WRAPPER_START) && contains_text(text, WRAPPER_END)) || contains_text(
        text,
        snippet,
    ) || contains_text(text, body)
}

/// Installs the wrapper `snippet` (whose lines between the markers are
/// `body`) in the start-up file `content`: an existing block is replaced, a
/// bare body is moved into a full block, and a missing wrapper is appended;
/// a wrapper already there is left alone unless `force` is given.
pub fn PlanWrapperInstall(content: &str, snippet: &str, body: &str, force: bool) -> (r: (
    String,
    WrapperAction,
))
    ensures
        (r.0@, r.1) == planned_install(content@, snippet@, body@, force),
{
    let hasBlock = contains_text(content, WRAPPER_START) && contains_text(content, WRAPPER_END);
    let hasSnippet = contains_text(content, snippet);
    let hasBody = contains_text(content, body);
    let present = hasBlock || hasSnippet || hasBody;
    if present && !force {
        return (String::from_str(content), WrapperAction::Skipped);
    }
    let done = if present {
        WrapperAction::Updated
    } else {
        WrapperAction::Added
    };
    if hasBlock {
        let replaced = ReplaceWrapperBlock(content, snippet);
        let same = chars_equal(&chars_of(replaced.as_str()), &chars_of(content));
        return (replaced, if same {
            WrapperAction::Skipped
        } else {
            done
        });
    }
    let mut out: Vec<char>;
    if hasBody {
        out = chars_of(remove_text(content, body).as_str());
    } else if hasSnippet {
        return (String::from_str(content), WrapperAction::Skipped);
    } else {
        out = chars_of(content);
    }
    ended_line_chars(&mut out);
    append_chars(&mut out, &chars_of(snippet));
    out.push('\n');
    (string_from(&out), done)
}

} // verus!
