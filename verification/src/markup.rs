//! Escaping of user-supplied text embedded in template-style wiki markup.
//!
//! Four substitutions protect template syntax: `{{` and `}}` get a
//! zero-width-space entity between the braces, and each literal `|` or `=`
//! becomes the template-parameter escape `{{!}}` or `{{=}}`.  The brace
//! substitutions are applied before the `|`/`=` ones, so the braces that the
//! latter introduce are never re-escaped; [`escape_seq`] realises the layered
//! substitutions as one left-to-right scan.  [`unescape_seq`] is the inverse
//! scan, and [`lemma_escape_round_trip`] proves that it recovers any text
//! that does not already contain the zero-width-space entity.

use vstd::prelude::*;
use crate::text::{to_chars, chars_to_string, push_all, has_prefix_at, contains_at, contains_seq,
    lemma_not_contains_skip, lemma_begins_concat, lemma_begins_index, lemma_contains_at_shift,
    lemma_contains_at_skip};

verus! {

/// The zero-width-space entity that keeps escaped braces apart.
pub open spec fn zws() -> Seq<char> {
    seq!['&', 'Z', 'e', 'r', 'o', 'W', 'i', 'd', 't', 'h', 'S', 'p', 'a', 'c', 'e', ';']
}

/// What `{{` becomes.
pub open spec fn esc_lbrace() -> Seq<char> {
    seq!['{'] + zws() + seq!['{']
}

/// What `}}` becomes.
pub open spec fn esc_rbrace() -> Seq<char> {
    seq!['}'] + zws() + seq!['}']
}

/// What `|` becomes.
pub open spec fn esc_pipe() -> Seq<char> {
    seq!['{', '{', '!', '}', '}']
}

/// What `=` becomes.
pub open spec fn esc_eq() -> Seq<char> {
    seq!['{', '{', '=', '}', '}']
}

/// The escaped form of a text: one left-to-right scan applying the four
/// substitutions, leftmost-first and without rescanning its own output.
pub open spec fn escape_seq(s: Seq<char>) -> Seq<char>
    decreases s.len(),
{
    if s.len() >= 2 && s[0] == '{' && s[1] == '{' {
        esc_lbrace() + escape_seq(s.skip(2))
    } else if s.len() >= 2 && s[0] == '}' && s[1] == '}' {
        esc_rbrace() + escape_seq(s.skip(2))
    } else if s.len() >= 1 && s[0] == '|' {
        esc_pipe() + escape_seq(s.skip(1))
    } else if s.len() >= 1 && s[0] == '=' {
        esc_eq() + escape_seq(s.skip(1))
    } else if s.len() >= 1 {
        seq![s[0]] + escape_seq(s.skip(1))
    } else {
        Seq::empty()
    }
}

/// The inverse scan: each escape sequence back to the character it stands
/// for, longest patterns first, everything else copied.
pub open spec fn unescape_seq(s: Seq<char>) -> Seq<char>
    decreases s.len(),
{
    if contains_at(s, 0, esc_lbrace()) {
        seq!['{', '{'] + unescape_seq(s.skip(esc_lbrace().len() as int))
    } else if contains_at(s, 0, esc_rbrace()) {
        seq!['}', '}'] + unescape_seq(s.skip(esc_rbrace().len() as int))
    } else if contains_at(s, 0, esc_pipe()) {
        seq!['|'] + unescape_seq(s.skip(esc_pipe().len() as int))
    } else if contains_at(s, 0, esc_eq()) {
        seq!['='] + unescape_seq(s.skip(esc_eq().len() as int))
    } else if s.len() >= 1 {
        seq![s[0]] + unescape_seq(s.skip(1))
    } else {
        Seq::empty()
    }
}

/// The escaped form of a character vector.
pub(crate) fn escape_chars(v: &Vec<char>) -> (out: Vec<char>)
    ensures
        out@ == escape_seq(v@),
{
    let lb = to_chars("{&ZeroWidthSpace;{");
    let rb = to_chars("}&ZeroWidthSpace;}");
    let pr = to_chars("{{!}}");
    let er = to_chars("{{=}}");
    proof {
        reveal_strlit("{&ZeroWidthSpace;{");
        reveal_strlit("}&ZeroWidthSpace;}");
        reveal_strlit("{{!}}");
        reveal_strlit("{{=}}");
        assert(lb@ =~= esc_lbrace());
        assert(rb@ =~= esc_rbrace());
        assert(pr@ =~= esc_pipe());
        assert(er@ =~= esc_eq());
    }
    let mut out: Vec<char> = Vec::new();
    proof {
        assert(v@.skip(0) =~= v@);
        assert(Seq::<char>::empty() + escape_seq(v@) =~= escape_seq(v@));
    }
    let mut i: usize = 0;
    while i < v.len()
        invariant
            i <= v@.len(),
            lb@ == esc_lbrace(),
            rb@ == esc_rbrace(),
            pr@ == esc_pipe(),
            er@ == esc_eq(),
            escape_seq(v@) == out@ + escape_seq(v@.skip(i as int)),
        decreases v@.len() - i,
    {
        let ghost s_i = v@.skip(i as int);
        proof {
            assert(v@.skip(i as int)[0] == v@[i as int]);
            if i + 1 < v@.len() {
                assert(v@.skip(i as int)[1] == v@[i as int + 1]);
            }
        }
        let ghost out0 = out@;
        let c = v[i];
        if c == '{' && i + 1 < v.len() && v[i + 1] == '{' {
            push_all(&mut out, &lb);
            proof {
                assert(s_i.skip(2) =~= v@.skip(i + 2));
                assert(escape_seq(s_i) == esc_lbrace() + escape_seq(v@.skip(i + 2)));
                assert(out0 + (esc_lbrace() + escape_seq(v@.skip(i + 2))) =~= (out0 + lb@)
                    + escape_seq(v@.skip(i + 2)));
            }
            i += 2;
        } else if c == '}' && i + 1 < v.len() && v[i + 1] == '}' {
            push_all(&mut out, &rb);
            proof {
                assert(s_i.skip(2) =~= v@.skip(i + 2));
                assert(escape_seq(s_i) == esc_rbrace() + escape_seq(v@.skip(i + 2)));
                assert(out0 + (esc_rbrace() + escape_seq(v@.skip(i + 2))) =~= (out0 + rb@)
                    + escape_seq(v@.skip(i + 2)));
            }
            i += 2;
        } else if c == '|' {
            push_all(&mut out, &pr);
            proof {
                assert(s_i.skip(1) =~= v@.skip(i + 1));
                assert(escape_seq(s_i) == esc_pipe() + escape_seq(v@.skip(i + 1)));
                assert(out0 + (esc_pipe() + escape_seq(v@.skip(i + 1))) =~= (out0 + pr@)
                    + escape_seq(v@.skip(i + 1)));
            }
            i += 1;
        } else if c == '=' {
            push_all(&mut out, &er);
            proof {
                assert(s_i.skip(1) =~= v@.skip(i + 1));
                assert(escape_seq(s_i) == esc_eq() + escape_seq(v@.skip(i + 1)));
                assert(out0 + (esc_eq() + escape_seq(v@.skip(i + 1))) =~= (out0 + er@)
                    + escape_seq(v@.skip(i + 1)));
            }
            i += 1;
        } else {
            out.push(c);
            proof {
                assert(s_i.skip(1) =~= v@.skip(i + 1));
                assert(escape_seq(s_i) == seq![v@[i as int]] + escape_seq(v@.skip(i + 1)));
                assert(out0 + (seq![v@[i as int]] + escape_seq(v@.skip(i + 1))) =~= (out0 + seq![
                    v@[i as int],
                ]) + escape_seq(v@.skip(i + 1)));
            }
            i += 1;
        }
    }
    proof {
        assert(v@.skip(v@.len() as int) =~= Seq::<char>::empty());
        assert(out@ + Seq::<char>::empty() =~= out@);
    }
    out
}

/// Escapes user-supplied text for embedding in template markup.
pub fn escape(text: &str) -> (r: String)
    ensures
        r@ == escape_seq(text@),
{
    let chars = to_chars(text);
    let out = escape_chars(&chars);
    chars_to_string(&out)
}

/// The inverse of [`escape`]: each escape sequence back to the character
/// it stands for.  For any text free of the zero-width-space entity this
/// recovers the original exactly ([`lemma_escape_round_trip`]).
pub fn unescape(text: &str) -> (r: String)
    ensures
        r@ == unescape_seq(text@),
{
    let v = to_chars(text);
    let lb = to_chars("{&ZeroWidthSpace;{");
    let rb = to_chars("}&ZeroWidthSpace;}");
    let pr = to_chars("{{!}}");
    let er = to_chars("{{=}}");
    proof {
        reveal_strlit("{&ZeroWidthSpace;{");
        reveal_strlit("}&ZeroWidthSpace;}");
        reveal_strlit("{{!}}");
        reveal_strlit("{{=}}");
        assert(lb@ =~= esc_lbrace());
        assert(rb@ =~= esc_rbrace());
        assert(pr@ =~= esc_pipe());
        assert(er@ =~= esc_eq());
    }
    let mut out: Vec<char> = Vec::new();
    proof {
        assert(v@.skip(0) =~= v@);
        assert(Seq::<char>::empty() + unescape_seq(v@) =~= unescape_seq(v@));
    }
    let n = v.len();
    let mut i: usize = 0;
    while i < n
        invariant
            i <= n,
            n == v@.len(),
            lb@ == esc_lbrace(),
            rb@ == esc_rbrace(),
            pr@ == esc_pipe(),
            er@ == esc_eq(),
            unescape_seq(v@) == out@ + unescape_seq(v@.skip(i as int)),
        decreases n - i,
    {
        let ghost s_i = v@.skip(i as int);
        let ghost out0 = out@;
        proof {
            lemma_contains_at_skip(v@, i as int, 0, lb@);
            lemma_contains_at_skip(v@, i as int, 0, rb@);
            lemma_contains_at_skip(v@, i as int, 0, pr@);
            lemma_contains_at_skip(v@, i as int, 0, er@);
        }
        if has_prefix_at(&v, i, &lb) {
            out.push('{');
            out.push('{');
            proof {
                assert(s_i.skip(18) =~= v@.skip(i + 18));
                assert(unescape_seq(s_i) == seq!['{', '{'] + unescape_seq(v@.skip(i + 18)));
                assert(out0 + (seq!['{', '{'] + unescape_seq(v@.skip(i + 18))) =~= (out0 + seq![
                    '{',
                    '{',
                ]) + unescape_seq(v@.skip(i + 18)));
            }
            i += 18;
        } else if has_prefix_at(&v, i, &rb) {
            out.push('}');
            out.push('}');
            proof {
                assert(s_i.skip(18) =~= v@.skip(i + 18));
                assert(unescape_seq(s_i) == seq!['}', '}'] + unescape_seq(v@.skip(i + 18)));
                assert(out0 + (seq!['}', '}'] + unescape_seq(v@.skip(i + 18))) =~= (out0 + seq![
                    '}',
                    '}',
                ]) + unescape_seq(v@.skip(i + 18)));
            }
            i += 18;
        } else if has_prefix_at(&v, i, &pr) {
            out.push('|');
            proof {
                assert(s_i.skip(5) =~= v@.skip(i + 5));
                assert(unescape_seq(s_i) == seq!['|'] + unescape_seq(v@.skip(i + 5)));
                assert(out0 + (seq!['|'] + unescape_seq(v@.skip(i + 5))) =~= (out0 + seq!['|'])
                    + unescape_seq(v@.skip(i + 5)));
            }
            i += 5;
        } else if has_prefix_at(&v, i, &er) {
            out.push('=');
            proof {
                assert(s_i.skip(5) =~= v@.skip(i + 5));
                assert(unescape_seq(s_i) == seq!['='] + unescape_seq(v@.skip(i + 5)));
                assert(out0 + (seq!['='] + unescape_seq(v@.skip(i + 5))) =~= (out0 + seq!['='])
                    + unescape_seq(v@.skip(i + 5)));
            }
            i += 5;
        } else {
            let c = v[i];
            out.push(c);
            proof {
                assert(s_i[0] == v@[i as int]);
                assert(s_i.skip(1) =~= v@.skip(i + 1));
                assert(unescape_seq(s_i) == seq![v@[i as int]] + unescape_seq(v@.skip(i + 1)));
                assert(out0 + (seq![v@[i as int]] + unescape_seq(v@.skip(i + 1))) =~= (out0 + seq![
                    v@[i as int],
                ]) + unescape_seq(v@.skip(i + 1)));
            }
            i += 1;
        }
    }
    proof {
        assert(v@.skip(n as int) =~= Seq::<char>::empty());
        assert(out@ + Seq::<char>::empty() =~= out@);
    }
    chars_to_string(&out)
}

/// If escaped text starts with a tail of the entity, the original text did
/// too: the escaper never manufactures entity characters.
proof fn lemma_escape_entity_prefix(s: Seq<char>, k: int)
    requires
        0 <= k < 16,
        !contains_seq(s, zws()),
        contains_at(escape_seq(s), 0, zws().skip(k)),
    ensures
        contains_at(s, 0, zws().skip(k)),
    decreases s.len(),
{
    let e = escape_seq(s);
    let p = zws().skip(k);
    assert(p.len() == 16 - k);
    assert(p[0] == zws()[k]);
    lemma_begins_index(e, p);
    assert(s.len() >= 1);
    if s.len() >= 2 && s[0] == '{' && s[1] == '{' {
        assert(e == esc_lbrace() + escape_seq(s.skip(2)));
        assert((esc_lbrace() + escape_seq(s.skip(2)))[0] == '{');
        assert(false);
    } else if s.len() >= 2 && s[0] == '}' && s[1] == '}' {
        assert(e == esc_rbrace() + escape_seq(s.skip(2)));
        assert((esc_rbrace() + escape_seq(s.skip(2)))[0] == '}');
        assert(false);
    } else if s[0] == '|' {
        assert(e == esc_pipe() + escape_seq(s.skip(1)));
        assert((esc_pipe() + escape_seq(s.skip(1)))[0] == '{');
        assert(false);
    } else if s[0] == '=' {
        assert(e == esc_eq() + escape_seq(s.skip(1)));
        assert((esc_eq() + escape_seq(s.skip(1)))[0] == '{');
        assert(false);
    } else {
        let rest = s.skip(1);
        let t = escape_seq(rest);
        assert(e == seq![s[0]] + t);
        assert((seq![s[0]] + t)[0] == s[0]);
        assert(s[0] == zws()[k]);
        if k == 15 {
            assert(s.subrange(0, 1) =~= p);
        } else {
            lemma_not_contains_skip(s, 1, zws());
            assert(contains_at(t, 0, zws().skip(k + 1))) by {
                assert forall|j: int| 0 <= j < 15 - k implies #[trigger] t.subrange(0, 15 - k)[j]
                    == zws().skip(k + 1)[j] by {
                    assert((seq![s[0]] + t)[j + 1] == t[j]);
                    assert(e[j + 1] == p[j + 1]);
                }
                assert(t.subrange(0, 15 - k) =~= zws().skip(k + 1));
            }
            lemma_escape_entity_prefix(rest, k + 1);
            assert forall|j: int| 0 <= j < 16 - k implies s.subrange(0, 16 - k)[j] == p[j] by {
                if j > 0 {
                    assert(rest.subrange(0, 15 - k)[j - 1] == zws().skip(k + 1)[j - 1]);
                    assert(rest[j - 1] == s[j]);
                }
            }
            assert(s.subrange(0, 16 - k) =~= p);
        }
    }
}

/// Escaping then unescaping recovers the text, for any text that does not
/// already contain the zero-width-space entity.
pub proof fn lemma_escape_round_trip(s: Seq<char>)
    requires
        !contains_seq(s, zws()),
    ensures
        unescape_seq(escape_seq(s)) == s,
    decreases s.len(),
{
    let e = escape_seq(s);
    if s.len() == 0 {
        assert(e.len() == 0);
        assert(unescape_seq(e) =~= s);
    } else if s.len() >= 2 && s[0] == '{' && s[1] == '{' {
        let rest = s.skip(2);
        let t = escape_seq(rest);
        assert(e == esc_lbrace() + t);
        lemma_begins_concat(esc_lbrace(), t);
        lemma_not_contains_skip(s, 2, zws());
        lemma_escape_round_trip(rest);
        assert(unescape_seq(e) == seq!['{', '{'] + unescape_seq(e.skip(18)));
        assert(e.skip(18) == t);
        assert(seq!['{', '{'] + rest =~= s);
    } else if s.len() >= 2 && s[0] == '}' && s[1] == '}' {
        let rest = s.skip(2);
        let t = escape_seq(rest);
        assert(e == esc_rbrace() + t);
        lemma_begins_concat(esc_rbrace(), t);
        lemma_not_contains_skip(s, 2, zws());
        lemma_escape_round_trip(rest);
        if contains_at(e, 0, esc_lbrace()) {
            lemma_begins_index(e, esc_lbrace());
            assert((esc_rbrace() + t)[0] == '}');
            assert(false);
        }
        assert(unescape_seq(e) == seq!['}', '}'] + unescape_seq(e.skip(18)));
        assert(e.skip(18) == t);
        assert(seq!['}', '}'] + rest =~= s);
    } else if s[0] == '|' {
        let rest = s.skip(1);
        let t = escape_seq(rest);
        assert(e == esc_pipe() + t);
        lemma_begins_concat(esc_pipe(), t);
        lemma_not_contains_skip(s, 1, zws());
        lemma_escape_round_trip(rest);
        if contains_at(e, 0, esc_lbrace()) {
            lemma_begins_index(e, esc_lbrace());
            assert((esc_pipe() + t)[1] == '{');
            assert(esc_lbrace()[1] == '&');
            assert(false);
        }
        if contains_at(e, 0, esc_rbrace()) {
            lemma_begins_index(e, esc_rbrace());
            assert((esc_pipe() + t)[0] == '{');
            assert(false);
        }
        assert(unescape_seq(e) == seq!['|'] + unescape_seq(e.skip(5)));
        assert(e.skip(5) == t);
        assert(seq!['|'] + rest =~= s);
    } else if s[0] == '=' {
        let rest = s.skip(1);
        let t = escape_seq(rest);
        assert(e == esc_eq() + t);
        lemma_begins_concat(esc_eq(), t);
        lemma_not_contains_skip(s, 1, zws());
        lemma_escape_round_trip(rest);
        if contains_at(e, 0, esc_lbrace()) {
            lemma_begins_index(e, esc_lbrace());
            assert((esc_eq() + t)[1] == '{');
            assert(esc_lbrace()[1] == '&');
            assert(false);
        }
        if contains_at(e, 0, esc_rbrace()) {
            lemma_begins_index(e, esc_rbrace());
            assert((esc_eq() + t)[0] == '{');
            assert(false);
        }
        if contains_at(e, 0, esc_pipe()) {
            lemma_begins_index(e, esc_pipe());
            assert((esc_eq() + t)[2] == '=');
            assert(esc_pipe()[2] == '!');
            assert(false);
        }
        assert(unescape_seq(e) == seq!['='] + unescape_seq(e.skip(5)));
        assert(e.skip(5) == t);
        assert(seq!['='] + rest =~= s);
    } else {
        let c = s[0];
        let rest = s.skip(1);
        let t = escape_seq(rest);
        assert(e == seq![c] + t);
        lemma_begins_concat(seq![c], t);
        lemma_not_contains_skip(s, 1, zws());
        lemma_escape_round_trip(rest);
        assert((seq![c] + t)[0] == c);
        if contains_at(e, 0, esc_lbrace()) {
            lemma_begins_index(e, esc_lbrace());
            assert(c == '{');
            assert(contains_at(t, 0, zws())) by {
                assert forall|j: int| 0 <= j < 16 implies t.subrange(0, 16)[j] == zws()[j] by {
                    assert((seq![c] + t)[j + 1] == t[j]);
                    assert(esc_lbrace()[j + 1] == zws()[j]);
                }
                assert(t.subrange(0, 16) =~= zws());
                assert(zws().skip(0) =~= zws());
            }
            assert(contains_at(t, 0, zws().skip(0))) by {
                assert(zws().skip(0) =~= zws());
            }
            lemma_escape_entity_prefix(rest, 0);
            assert(contains_at(rest, 0, zws())) by {
                assert(zws().skip(0) =~= zws());
            }
            assert(false);
        }
        if contains_at(e, 0, esc_rbrace()) {
            lemma_begins_index(e, esc_rbrace());
            assert(c == '}');
            assert(contains_at(t, 0, zws().skip(0))) by {
                assert forall|j: int| 0 <= j < 16 implies t.subrange(0, 16)[j] == zws()[j] by {
                    assert((seq![c] + t)[j + 1] == t[j]);
                    assert(esc_rbrace()[j + 1] == zws()[j]);
                }
                assert(t.subrange(0, 16) =~= zws());
                assert(zws().skip(0) =~= zws());
            }
            lemma_escape_entity_prefix(rest, 0);
            assert(contains_at(rest, 0, zws())) by {
                assert(zws().skip(0) =~= zws());
            }
            assert(false);
        }
        if contains_at(e, 0, esc_pipe()) {
            lemma_begins_index(e, esc_pipe());
            assert(c == '{');
            // a lone `{` is never followed by another `{` here, so the
            // escape of the rest cannot supply the `{!` that `{{!}}` needs
            assert(rest.len() >= 1);
            assert((seq![c] + t)[1] == t[0]);
            assert((seq![c] + t)[2] == t[1]);
            assert(t[0] == '{' && t[1] == '!');
            if rest.len() >= 2 && rest[0] == '{' && rest[1] == '{' {
                assert(s[1] == '{');
                assert(false);
            } else if rest.len() >= 2 && rest[0] == '}' && rest[1] == '}' {
                assert(t == esc_rbrace() + escape_seq(rest.skip(2)));
                assert((esc_rbrace() + escape_seq(rest.skip(2)))[0] == '}');
                assert(false);
            } else if rest[0] == '|' {
                assert(t == esc_pipe() + escape_seq(rest.skip(1)));
                assert((esc_pipe() + escape_seq(rest.skip(1)))[1] == '{');
                assert(false);
            } else if rest[0] == '=' {
                assert(t == esc_eq() + escape_seq(rest.skip(1)));
                assert((esc_eq() + escape_seq(rest.skip(1)))[1] == '{');
                assert(false);
            } else {
                assert(t == seq![rest[0]] + escape_seq(rest.skip(1)));
                assert((seq![rest[0]] + escape_seq(rest.skip(1)))[0] == rest[0]);
                assert(rest[0] == '{');
                assert(s[1] == '{');
                assert(false);
            }
        }
        if contains_at(e, 0, esc_eq()) {
            lemma_begins_index(e, esc_eq());
            assert(c == '{');
            assert(rest.len() >= 1);
            assert((seq![c] + t)[1] == t[0]);
            assert((seq![c] + t)[2] == t[1]);
            assert(t[0] == '{' && t[1] == '=');
            if rest.len() >= 2 && rest[0] == '{' && rest[1] == '{' {
                assert(s[1] == '{');
                assert(false);
            } else if rest.len() >= 2 && rest[0] == '}' && rest[1] == '}' {
                assert(t == esc_rbrace() + escape_seq(rest.skip(2)));
                assert((esc_rbrace() + escape_seq(rest.skip(2)))[0] == '}');
                assert(false);
            } else if rest[0] == '|' {
                assert(t == esc_pipe() + escape_seq(rest.skip(1)));
                assert((esc_pipe() + escape_seq(rest.skip(1)))[1] == '{');
                assert(false);
            } else if rest[0] == '=' {
                assert(t == esc_eq() + escape_seq(rest.skip(1)));
                assert((esc_eq() + escape_seq(rest.skip(1)))[1] == '{');
                assert(false);
            } else {
                assert(t == seq![rest[0]] + escape_seq(rest.skip(1)));
                assert((seq![rest[0]] + escape_seq(rest.skip(1)))[0] == rest[0]);
                assert(rest[0] == '{');
                assert(s[1] == '{');
                assert(false);
            }
        }
        assert(unescape_seq(e) == seq![e[0]] + unescape_seq(e.skip(1)));
        assert(e[0] == c);
        assert(e.skip(1) == t);
        assert(seq![c] + rest =~= s);
    }
}

/// Escaped text never contains a literal pipe character.
pub proof fn lemma_escape_no_pipe(s: Seq<char>)
    ensures
        forall|i: int| 0 <= i < escape_seq(s).len() ==> escape_seq(s)[i] != '|',
    decreases s.len(),
{
    let e = escape_seq(s);
    if s.len() >= 2 && s[0] == '{' && s[1] == '{' {
        lemma_escape_no_pipe(s.skip(2));
        assert forall|i: int| 0 <= i < e.len() implies e[i] != '|' by {
            assert(e[i] == (esc_lbrace() + escape_seq(s.skip(2)))[i]);
        }
    } else if s.len() >= 2 && s[0] == '}' && s[1] == '}' {
        lemma_escape_no_pipe(s.skip(2));
        assert forall|i: int| 0 <= i < e.len() implies e[i] != '|' by {
            assert(e[i] == (esc_rbrace() + escape_seq(s.skip(2)))[i]);
        }
    } else if s.len() >= 1 && s[0] == '|' {
        lemma_escape_no_pipe(s.skip(1));
        assert forall|i: int| 0 <= i < e.len() implies e[i] != '|' by {
            assert(e[i] == (esc_pipe() + escape_seq(s.skip(1)))[i]);
        }
    } else if s.len() >= 1 && s[0] == '=' {
        lemma_escape_no_pipe(s.skip(1));
        assert forall|i: int| 0 <= i < e.len() implies e[i] != '|' by {
            assert(e[i] == (esc_eq() + escape_seq(s.skip(1)))[i]);
        }
    } else if s.len() >= 1 {
        lemma_escape_no_pipe(s.skip(1));
        assert forall|i: int| 0 <= i < e.len() implies e[i] != '|' by {
            assert(e[i] == (seq![s[0]] + escape_seq(s.skip(1)))[i]);
        }
    }
}

/// Every equals sign in escaped text is the middle of a `{{=}}` escape.
pub proof fn lemma_escape_equals_guarded(s: Seq<char>)
    ensures
        forall|i: int|
            0 <= i < escape_seq(s).len() && escape_seq(s)[i] == '=' ==> contains_at(
                escape_seq(s),
                i - 2,
                esc_eq(),
            ),
    decreases s.len(),
{
    let e = escape_seq(s);
    if s.len() >= 2 && s[0] == '{' && s[1] == '{' {
        let t = escape_seq(s.skip(2));
        lemma_escape_equals_guarded(s.skip(2));
        assert forall|i: int| 0 <= i < e.len() && e[i] == '=' implies contains_at(
            e,
            i - 2,
            esc_eq(),
        ) by {
            assert(e[i] == (esc_lbrace() + t)[i]);
            assert(i >= 18);
            assert(t[i - 18] == '=');
            lemma_contains_at_shift(esc_lbrace(), t, i - 18 - 2, esc_eq());
        }
    } else if s.len() >= 2 && s[0] == '}' && s[1] == '}' {
        let t = escape_seq(s.skip(2));
        lemma_escape_equals_guarded(s.skip(2));
        assert forall|i: int| 0 <= i < e.len() && e[i] == '=' implies contains_at(
            e,
            i - 2,
            esc_eq(),
        ) by {
            assert(e[i] == (esc_rbrace() + t)[i]);
            assert(i >= 18);
            assert(t[i - 18] == '=');
            lemma_contains_at_shift(esc_rbrace(), t, i - 18 - 2, esc_eq());
        }
    } else if s.len() >= 1 && s[0] == '|' {
        let t = escape_seq(s.skip(1));
        lemma_escape_equals_guarded(s.skip(1));
        assert forall|i: int| 0 <= i < e.len() && e[i] == '=' implies contains_at(
            e,
            i - 2,
            esc_eq(),
        ) by {
            assert(e[i] == (esc_pipe() + t)[i]);
            assert(i >= 5);
            assert(t[i - 5] == '=');
            lemma_contains_at_shift(esc_pipe(), t, i - 5 - 2, esc_eq());
        }
    } else if s.len() >= 1 && s[0] == '=' {
        let t = escape_seq(s.skip(1));
        lemma_escape_equals_guarded(s.skip(1));
        lemma_begins_concat(esc_eq(), t);
        assert forall|i: int| 0 <= i < e.len() && e[i] == '=' implies contains_at(
            e,
            i - 2,
            esc_eq(),
        ) by {
            assert(e[i] == (esc_eq() + t)[i]);
            if i < 5 {
                assert(i == 2);
            } else {
                assert(t[i - 5] == '=');
                lemma_contains_at_shift(esc_eq(), t, i - 5 - 2, esc_eq());
            }
        }
    } else if s.len() >= 1 {
        let t = escape_seq(s.skip(1));
        lemma_escape_equals_guarded(s.skip(1));
        assert forall|i: int| 0 <= i < e.len() && e[i] == '=' implies contains_at(
            e,
            i - 2,
            esc_eq(),
        ) by {
            assert(e[i] == (seq![s[0]] + t)[i]);
            assert(i >= 1);
            assert(t[i - 1] == '=');
            lemma_contains_at_shift(seq![s[0]], t, i - 1 - 2, esc_eq());
        }
    }
}

} // verus!
