//! The text boundary: splitting raw characters into normalized tokens,
//! and joining generated tokens back into prose. Tokens are lowercase;
//! runs of punctuation coalesce into single punctuation tokens;
//! whitespace separates tokens and is never itself a token. The formatter
//! re-inserts spaces, suppresses the space before punctuation, and
//! capitalizes after sentence-terminal punctuation and at the start.

use vstd::prelude::*;

use vstd::string::StrSliceExecFns;

use crate::codec::{char_from_u32, string_push_char};

verus! {

/// The characters with Unicode's White_Space property.
pub open spec fn is_space_char(c: char) -> bool {
    let u = c as u32;
    u == 0x09 || u == 0x0A || u == 0x0B || u == 0x0C || u == 0x0D || u == 0x20 || u == 0x85 || u
        == 0xA0 || u == 0x1680 || (0x2000 <= u && u <= 0x200A) || u == 0x2028 || u == 0x2029 || u
        == 0x202F || u == 0x205F || u == 0x3000
}

/// ASCII punctuation.
pub open spec fn is_punct_char(c: char) -> bool {
    let u = c as u32;
    (33 <= u && u <= 47) || (58 <= u && u <= 64) || (91 <= u && u <= 96) || (123 <= u && u <= 126)
}

/// ASCII lowercasing: letters shift, everything else stays.
pub open spec fn lower_char(c: char) -> char {
    let u = c as u32;
    if 65 <= u && u <= 90 {
        ((u + 32) as u32) as char
    } else {
        c
    }
}

/// The tokens of a character stream, given the token being built and the
/// tokens already finished: whitespace finishes the current token; a
/// punctuation character first finishes a current token that does not
/// already end in punctuation, so punctuation runs stay together; any
/// other character extends the current token, lowercased.
pub open spec fn tokenize_from(chars: Seq<char>, cur: Seq<char>, acc: Seq<Seq<char>>) -> Seq<
    Seq<char>,
>
    decreases chars.len(),
{
    if chars.len() == 0 {
        if cur.len() == 0 {
            acc
        } else {
            acc.push(cur)
        }
    } else {
        let c = chars[0];
        if is_space_char(c) {
            tokenize_from(
                chars.skip(1),
                Seq::empty(),
                if cur.len() == 0 {
                    acc
                } else {
                    acc.push(cur)
                },
            )
        } else if is_punct_char(c) {
            if cur.len() > 0 && !is_punct_char(cur.last()) {
                tokenize_from(chars.skip(1), Seq::empty().push(lower_char(c)), acc.push(cur))
            } else {
                tokenize_from(chars.skip(1), cur.push(lower_char(c)), acc)
            }
        } else {
            tokenize_from(chars.skip(1), cur.push(lower_char(c)), acc)
        }
    }
}

/// The tokens of a character stream.
pub open spec fn tokenize(chars: Seq<char>) -> Seq<Seq<char>> {
    tokenize_from(chars, Seq::empty(), Seq::empty())
}

fn char_is_space(c: char) -> (r: bool)
    ensures
        r == is_space_char(c),
{
    let u = c as u32;
    u == 0x09 || u == 0x0A || u == 0x0B || u == 0x0C || u == 0x0D || u == 0x20 || u == 0x85 || u
        == 0xA0 || u == 0x1680 || (0x2000 <= u && u <= 0x200A) || u == 0x2028 || u == 0x2029 || u
        == 0x202F || u == 0x205F || u == 0x3000
}

fn char_is_punct(c: char) -> (r: bool)
    ensures
        r == is_punct_char(c),
{
    let u = c as u32;
    (33 <= u && u <= 47) || (58 <= u && u <= 64) || (91 <= u && u <= 96) || (123 <= u && u <= 126)
}

fn char_to_lower(c: char) -> (r: char)
    ensures
        r == lower_char(c),
{
    let u = c as u32;
    if 65 <= u && u <= 90 {
        match char_from_u32(u + 32) {
            Some(l) => l,
            None => unreached(),
        }
    } else {
        c
    }
}

/// Splits characters into normalized tokens, as `tokenize` specifies.
pub fn tokenize_input(chars: &Vec<char>) -> (r: Vec<String>)
    ensures
        r.deep_view() == tokenize(chars@),
{
    let mut tokens: Vec<String> = Vec::new();
    let mut cur = String::new();
    let mut i: usize = 0;
    proof {
        assert(tokens.deep_view() =~= Seq::<Seq<char>>::empty());
        assert(chars@.skip(0) =~= chars@);
    }
    while i < chars.len()
        invariant
            i <= chars@.len(),
            tokenize(chars@) == tokenize_from(chars@.skip(i as int), cur@, tokens.deep_view()),
        decreases chars@.len() - i,
    {
        let c = chars[i];
        let ghost rest = chars@.skip(i as int);
        let ghost cur_old = cur@;
        let ghost acc_old = tokens.deep_view();
        proof {
            assert(rest[0] == chars@[i as int]);
            assert(rest.skip(1) =~= chars@.skip(i + 1));
        }
        if char_is_space(c) {
            if !cur.as_str().is_empty() {
                push_token(&mut tokens, cur);
                cur = String::new();
            }
        } else if char_is_punct(c) {
            let flush = if cur.as_str().is_empty() {
                false
            } else {
                let last = cur.as_str().get_char(cur.as_str().unicode_len() - 1);
                proof {
                    assert(cur@.last() == last);
                }
                !char_is_punct(last)
            };
            if flush {
                push_token(&mut tokens, cur);
                cur = String::new();
            }
            string_push_char(&mut cur, char_to_lower(c));
        } else {
            string_push_char(&mut cur, char_to_lower(c));
        }
        proof {
            let nacc = tokens.deep_view();
            let ncur = cur@;
            if is_space_char(c) {
                assert(ncur =~= Seq::<char>::empty());
                assert(nacc == (if cur_old.len() == 0 {
                    acc_old
                } else {
                    acc_old.push(cur_old)
                }));
            } else if is_punct_char(c) {
                if cur_old.len() > 0 && !is_punct_char(cur_old.last()) {
                    assert(ncur =~= Seq::<char>::empty().push(lower_char(c)));
                    assert(nacc == acc_old.push(cur_old));
                } else {
                    assert(ncur == cur_old.push(lower_char(c)));
                    assert(nacc == acc_old);
                }
            } else {
                assert(ncur == cur_old.push(lower_char(c)));
                assert(nacc == acc_old);
            }
            assert(tokenize(chars@) == tokenize_from(chars@.skip(i + 1), ncur, nacc));
        }
        i = i + 1;
    }
    proof {
        assert(chars@.skip(chars@.len() as int) =~= Seq::<char>::empty());
    }
    if !cur.as_str().is_empty() {
        push_token(&mut tokens, cur);
    }
    tokens
}

/// Appends one finished token.
fn push_token(tokens: &mut Vec<String>, t: String)
    ensures
        final(tokens).deep_view() == old(tokens).deep_view().push(t@),
{
    let ghost pre = tokens.deep_view();
    let ghost pvec = tokens@;
    let ghost tv = t@;
    tokens.push(t);
    proof {
        let post = tokens.deep_view();
        assert forall|x: int| 0 <= x < post.len() implies post[x] == pre.push(tv)[x] by {
            assert(post[x] == tokens@[x].deep_view());
            if x < pre.len() {
                assert(tokens@[x] == pvec[x]);
                assert(pre[x] == pvec[x].deep_view());
            }
        }
        assert(post =~= pre.push(tv));
    }
}

/// The Unicode uppercase mapping of a character: one or more characters,
/// a function of the character alone.
pub uninterp spec fn upper_of(c: char) -> Seq<char>;

/// Relies on `char::to_uppercase`: yields the Unicode uppercase mapping,
/// at least one character.
#[verifier::external_body]
fn char_to_upper(c: char) -> (r: String)
    ensures
        r@ == upper_of(c),
        r@.len() >= 1,
{
    c.to_uppercase().collect()
}

/// A word with its first character uppercased.
pub open spec fn capitalized(w: Seq<char>) -> Seq<char> {
    if w.len() == 0 {
        Seq::empty()
    } else {
        upper_of(w[0]) + w.skip(1)
    }
}

/// The prose for a token stream, given what is already written and
/// whether the next word opens a sentence: a space is inserted before a
/// token unless it starts with punctuation or nothing was written yet; a
/// sentence-terminal token (`.`, `;`, `!`, `?`) capitalizes the next one.
pub open spec fn format_from(tokens: Seq<Seq<char>>, out: Seq<char>, cap: bool) -> Seq<char>
    decreases tokens.len(),
{
    if tokens.len() == 0 {
        out
    } else {
        let t = tokens[0];
        let space = !((t.len() == 0 || is_punct_char(t[0])) || out.len() == 0);
        let out1 = if space {
            out.push(' ')
        } else {
            out
        };
        let out2 = out1 + (if cap {
            capitalized(t)
        } else {
            t
        });
        let ncap = t.len() > 0 && (t[0] == '.' || t[0] == ';' || t[0] == '!' || t[0] == '?');
        format_from(tokens.skip(1), out2, ncap)
    }
}

/// The prose for a token stream, capitalized at the start.
pub open spec fn formatted(tokens: Seq<Seq<char>>) -> Seq<char> {
    format_from(tokens, Seq::empty(), true)
}

/// Joins tokens into prose, as `formatted` specifies.
pub fn format_output(tokens: &Vec<String>) -> (r: String)
    ensures
        r@ == formatted(tokens.deep_view()),
{
    let mut out = String::new();
    let mut capitalize_next = true;
    let mut i: usize = 0;
    let ghost dv = tokens.deep_view();
    proof {
        assert(dv.skip(0) =~= dv);
    }
    while i < tokens.len()
        invariant
            i <= tokens@.len(),
            dv == tokens.deep_view(),
            dv.len() == tokens@.len(),
            formatted(dv) == format_from(dv.skip(i as int), out@, capitalize_next),
        decreases tokens@.len() - i,
    {
        let token = &tokens[i];
        let ghost t = dv[i as int];
        let ghost rest = dv.skip(i as int);
        let ghost out_old = out@;
        let ghost cap_old = capitalize_next;
        proof {
            assert(rest[0] == t);
            assert(rest.skip(1) =~= dv.skip(i + 1));
            assert(token@ == t);
        }
        let tlen = token.as_str().unicode_len();
        let starts_punct = if tlen == 0 {
            false
        } else {
            char_is_punct(token.as_str().get_char(0))
        };
        if !(tlen == 0 || starts_punct) && !out.as_str().is_empty() {
            string_push_char(&mut out, ' ');
        }
        let ghost out1 = out@;
        proof {
            assert(out1 == (if !((t.len() == 0 || is_punct_char(t[0])) || out_old.len() == 0) {
                out_old.push(' ')
            } else {
                out_old
            }));
        }
        if capitalize_next {
            capitalize_next = false;
            if tlen > 0 {
                let head = char_to_upper(token.as_str().get_char(0));
                out.append(head.as_str());
                let ghost mid = out@;
                let mut ci: usize = 1;
                while ci < tlen
                    invariant
                        1 <= ci <= tlen,
                        tlen == token@.len(),
                        out@ == mid + token@.subrange(1, ci as int),
                    decreases tlen - ci,
                {
                    string_push_char(&mut out, token.as_str().get_char(ci));
                    proof {
                        assert(out@ =~= mid + token@.subrange(1, ci + 1));
                    }
                    ci = ci + 1;
                }
                proof {
                    assert(token@.subrange(1, tlen as int) =~= token@.skip(1));
                    assert(out@ =~= out1 + capitalized(t));
                }
            } else {
                proof {
                    assert(capitalized(t) == Seq::<char>::empty());
                    assert(out@ =~= out1 + capitalized(t));
                }
            }
        } else {
            out.append(token.as_str());
        }
        if tlen > 0 {
            let f = token.as_str().get_char(0);
            if f == '.' || f == ';' || f == '!' || f == '?' {
                capitalize_next = true;
            }
        }
        proof {
            let out2 = out1 + (if cap_old {
                capitalized(t)
            } else {
                t
            });
            assert(out@ =~= out2);
            assert(formatted(dv) == format_from(dv.skip(i + 1), out@, capitalize_next));
        }
        i = i + 1;
    }
    proof {
        assert(dv.skip(dv.len() as int) =~= Seq::<Seq<char>>::empty());
    }
    out
}

} // verus!
