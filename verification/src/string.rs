//! The string literal codec: escaping of control and special characters
//! for textual display, and the inverse unescaping used when reading
//! literals back.

use vstd::prelude::*;

verus! {

/// How one character is escaped: the named escapes, the caret forms for
/// the remaining control characters and DEL, and everything else as
/// itself. Control characters 0x01 through 0x1A map to caret-lowercase
/// letters; 0x1C through 0x1F (0x1B is the named `\e`) map through the
/// caret-uppercase offset, landing on `\` through `_`.
pub open spec fn escape_char(c: char) -> Seq<char> {
    let w = c as u32;
    if w == 0 {
        seq!['\\', '0']
    } else if w == 7 {
        seq!['\\', 'a']
    } else if w == 8 {
        seq!['\\', 'b']
    } else if w == 9 {
        seq!['\\', 't']
    } else if w == 10 {
        seq!['\\', 'n']
    } else if w == 11 {
        seq!['\\', 'v']
    } else if w == 12 {
        seq!['\\', 'f']
    } else if w == 13 {
        seq!['\\', 'r']
    } else if w == 27 {
        seq!['\\', 'e']
    } else if w == 34 {
        seq!['\\', '"']
    } else if w == 92 {
        seq!['\\', '\\']
    } else if w == 127 {
        seq!['\\', '^', '?']
    } else if 1 <= w <= 26 {
        seq!['\\', '^', ((w + 96) as u8) as char]
    } else if 28 <= w <= 31 {
        seq!['\\', '^', ((w + 64) as u8) as char]
    } else {
        seq![c]
    }
}

/// The whole text escaped, character by character.
pub open spec fn escape_spec(s: Seq<char>) -> Seq<char>
    decreases s.len(),
{
    if s.len() == 0 {
        Seq::empty()
    } else {
        escape_char(s[0]) + escape_spec(s.skip(1))
    }
}

/// The value of a hexadecimal digit.
pub open spec fn hex_val(c: char) -> Option<u32> {
    let w = c as u32;
    if 48 <= w <= 57 {
        Some((w - 48) as u32)
    } else if 97 <= w <= 102 {
        Some((w - 87) as u32)
    } else if 65 <= w <= 70 {
        Some((w - 55) as u32)
    } else {
        None
    }
}

/// The value of the first `k` characters read as hexadecimal digits;
/// absent if any of them is missing or not a digit.
pub open spec fn parse_hex(s: Seq<char>, k: nat) -> Option<nat>
    decreases k,
{
    if k == 0 {
        Some(0)
    } else {
        match parse_hex(s, (k - 1) as nat) {
            Some(v) => if k - 1 < s.len() {
                match hex_val(s[k - 1]) {
                    Some(d) => Some(16 * v + d as nat),
                    None => None,
                }
            } else {
                None
            },
            None => None,
        }
    }
}

/// Whether `v` is a Unicode scalar value: a code point that is not a
/// surrogate.
pub open spec fn is_scalar_v(v: nat) -> bool {
    v < 0xD800 || (0xE000 <= v && v <= 0x10FFFF)
}

/// The character with scalar value `v`, if `v` is one.
pub open spec fn scalar_char(v: nat) -> Option<char> {
    if is_scalar_v(v) {
        Some(v as char)
    } else {
        None
    }
}

/// A `\u`/`\U` payload: exactly `k` hexadecimal digits naming a scalar.
pub open spec fn parse_unicode(s: Seq<char>, k: nat) -> Option<char> {
    match parse_hex(s, k) {
        Some(v) => scalar_char(v),
        None => None,
    }
}

/// The meaning of the escape body that follows a backslash: the produced
/// character and how many characters the escape body takes.
pub open spec fn parse_escape(s: Seq<char>) -> Option<(char, nat)> {
    if s.len() == 0 {
        None
    } else {
        let w = s[0] as u32;
        if w == 48 {
            Some(('\0', 1))
        } else if w == 97 {
            Some(('\x07', 1))
        } else if w == 98 {
            Some(('\x08', 1))
        } else if w == 116 {
            Some(('\t', 1))
        } else if w == 110 {
            Some(('\n', 1))
        } else if w == 118 {
            Some(('\x0b', 1))
        } else if w == 102 {
            Some(('\x0c', 1))
        } else if w == 114 {
            Some(('\r', 1))
        } else if w == 101 {
            Some(('\x1b', 1))
        } else if w == 34 {
            Some(('"', 1))
        } else if w == 92 {
            Some(('\\', 1))
        } else if w == 94 {
            if s.len() < 2 {
                None
            } else {
                let u = s[1] as u32;
                if u == 63 {
                    Some(('\x7f', 2))
                } else if 97 <= u <= 122 {
                    Some((((u - 96) as u8) as char, 2))
                } else if 64 <= u <= 95 {
                    Some((((u - 64) as u8) as char, 2))
                } else {
                    None
                }
            }
        } else if w == 117 {
            match parse_unicode(s.skip(1), 4) {
                Some(c) => Some((c, 5)),
                None => None,
            }
        } else if w == 85 {
            match parse_unicode(s.skip(1), 8) {
                Some(c) => Some((c, 9)),
                None => None,
            }
        } else {
            None
        }
    }
}

/// The whole text unescaped; absent on a trailing or malformed escape.
pub open spec fn unescape_spec(s: Seq<char>) -> Option<Seq<char>>
    decreases s.len(),
{
    if s.len() == 0 {
        Some(Seq::empty())
    } else if s[0] as u32 == 92 {
        match parse_escape(s.skip(1)) {
            Some(p) => if 1 + p.1 <= s.len() {
                match unescape_spec(s.skip(1 + p.1 as int)) {
                    Some(rest) => Some(seq![p.0] + rest),
                    None => None,
                }
            } else {
                None
            },
            None => None,
        }
    } else {
        match unescape_spec(s.skip(1)) {
            Some(rest) => Some(seq![s[0]] + rest),
            None => None,
        }
    }
}

/// Relies on String::push: appends exactly the one character.
#[verifier::external_body]
pub(crate) fn push_char(s: &mut String, c: char)
    ensures
        final(s)@ == old(s)@ + seq![c],
{
    s.push(c);
}

/// Relies on char::from_u32: a Unicode scalar value converts to the
/// character with that value; a surrogate or out-of-range value does not.
#[verifier::external_body]
fn char_from_u32(v: u32) -> (r: Option<char>)
    ensures
        match r {
            Some(c) => is_scalar_v(v as nat) && c as u32 == v,
            None => !is_scalar_v(v as nat),
        },
{
    char::from_u32(v)
}

/// Escape every character of `input` for display inside a quoted literal.
pub fn escape(input: &str) -> (out: String)
    ensures
        out@ == escape_spec(input@),
{
    let ghost s = input@;
    let n = input.unicode_len();
    let mut out = String::new();
    let mut i: usize = 0;
    proof {
        assert(s.skip(0) =~= s);
        assert(out@ + escape_spec(s) =~= escape_spec(s));
    }
    while i < n
        invariant
            i <= n,
            n == s.len(),
            input@ == s,
            escape_spec(s) == out@ + escape_spec(s.skip(i as int)),
        decreases n - i,
    {
        let ghost out_pre = out@;
        let c = input.get_char(i);
        let w = c as u32;
        if w == 0 {
            push_char(&mut out, '\\');
            push_char(&mut out, '0');
        } else if w == 7 {
            push_char(&mut out, '\\');
            push_char(&mut out, 'a');
        } else if w == 8 {
            push_char(&mut out, '\\');
            push_char(&mut out, 'b');
        } else if w == 9 {
            push_char(&mut out, '\\');
            push_char(&mut out, 't');
        } else if w == 10 {
            push_char(&mut out, '\\');
            push_char(&mut out, 'n');
        } else if w == 11 {
            push_char(&mut out, '\\');
            push_char(&mut out, 'v');
        } else if w == 12 {
            push_char(&mut out, '\\');
            push_char(&mut out, 'f');
        } else if w == 13 {
            push_char(&mut out, '\\');
            push_char(&mut out, 'r');
        } else if w == 27 {
            push_char(&mut out, '\\');
            push_char(&mut out, 'e');
        } else if w == 34 {
            push_char(&mut out, '\\');
            push_char(&mut out, '"');
        } else if w == 92 {
            push_char(&mut out, '\\');
            push_char(&mut out, '\\');
        } else if w == 127 {
            push_char(&mut out, '\\');
            push_char(&mut out, '^');
            push_char(&mut out, '?');
        } else if 1 <= w && w <= 26 {
            push_char(&mut out, '\\');
            push_char(&mut out, '^');
            push_char(&mut out, ((w + 96) as u8) as char);
        } else if 28 <= w && w <= 31 {
            push_char(&mut out, '\\');
            push_char(&mut out, '^');
            push_char(&mut out, ((w + 64) as u8) as char);
        } else {
            push_char(&mut out, c);
        }
        proof {
            assert(out@ =~= out_pre + escape_char(c));
            assert(s.skip(i as int).skip(1) =~= s.skip(i + 1));
            assert(escape_spec(s.skip(i as int)) == escape_char(c) + escape_spec(s.skip(i + 1)));
            assert(out_pre + (escape_char(c) + escape_spec(s.skip(i + 1))) =~= out@ + escape_spec(
                s.skip(i + 1),
            ));
        }
        i = i + 1;
    }
    proof {
        assert(s.skip(n as int) =~= Seq::empty());
        assert(out@ + Seq::<char>::empty() =~= out@);
    }
    out
}

/// Read `nchars` hexadecimal digits beginning at character `i` and hand
/// back the scalar they name, with the position after them.
pub fn unescape_unicode(input: &str, i: usize, nchars: usize) -> (r: Option<(char, usize)>)
    requires
        i <= input@.len(),
    ensures
        match r {
            Some(p) => parse_unicode(input@.skip(i as int), nchars as nat) == Some(p.0) && p.1
                == i + nchars && i + nchars <= input@.len(),
            None => parse_unicode(input@.skip(i as int), nchars as nat) is None,
        },
{
    let ghost s = input@.skip(i as int);
    let n = input.unicode_len();
    let mut code: u32 = 0;
    let ghost mut mv: nat = 0nat;
    let mut j: usize = 0;
    while j < nchars
        invariant
            j <= nchars,
            i <= n,
            n == input@.len(),
            s == input@.skip(i as int),
            i + j <= n,
            parse_hex(s, j as nat) == Some(mv),
            (mv <= 0x10FFFF && code == mv) || (mv > 0x10FFFF && code > 0x10FFFF && code
                <= 0x110000),
        decreases nchars - j,
    {
        if n - i == j {
            proof {
                assert(s.len() == n - i);
                assert(parse_hex(s, (j + 1) as nat) is None);
                lemma_hex_short(s, (j + 1) as nat, nchars as nat);
            }
            return None;
        }
        let c = input.get_char(i + j);
        let w = c as u32;
        proof {
            assert(s[j as int] == input@[i + j]);
        }
        let d: u32;
        if 48 <= w && w <= 57 {
            d = w - 48;
        } else if 97 <= w && w <= 102 {
            d = w - 87;
        } else if 65 <= w && w <= 70 {
            d = w - 55;
        } else {
            proof {
                assert(hex_val(s[j as int]) is None);
                assert(parse_hex(s, (j + 1) as nat) is None);
                lemma_hex_short(s, (j + 1) as nat, nchars as nat);
            }
            return None;
        }
        let cand = code * 16 + d;
        code = if cand > 0x110000 {
            0x110000
        } else {
            cand
        };
        proof {
            mv = 16 * mv + d as nat;
        }
        j = j + 1;
    }
    match char_from_u32(code) {
        Some(c) => {
            proof {
                vstd::utf8::char_u32_cast(c, code);
            }
            Some((c, i + nchars))
        },
        None => None,
    }
}

/// Once the hexadecimal reading fails at `k` digits, it fails for any
/// longer count too.
proof fn lemma_hex_short(s: Seq<char>, k: nat, m: nat)
    requires
        parse_hex(s, k) is None,
        k <= m,
    ensures
        parse_hex(s, m) is None,
    decreases m - k,
{
    if k < m {
        lemma_hex_short(s, (k + 1) as nat, m);
    }
}

/// Read the escape body that begins at character `i` (just past a
/// backslash) and hand back the character it names, with the position
/// after the body.
pub fn unescape_single(input: &str, i: usize) -> (r: Option<(char, usize)>)
    requires
        i <= input@.len(),
    ensures
        match r {
            Some(p) => parse_escape(input@.skip(i as int)) == Some((p.0, (p.1 - i) as nat)) && i
                < p.1 <= input@.len(),
            None => parse_escape(input@.skip(i as int)) is None,
        },
{
    let ghost s = input@.skip(i as int);
    let n = input.unicode_len();
    if i == n {
        return None;
    }
    let c = input.get_char(i);
    let w = c as u32;
    proof {
        assert(s[0] == input@[i as int]);
    }
    if w == 48 {
        Some(('\0', i + 1))
    } else if w == 97 {
        Some(('\x07', i + 1))
    } else if w == 98 {
        Some(('\x08', i + 1))
    } else if w == 116 {
        Some(('\t', i + 1))
    } else if w == 110 {
        Some(('\n', i + 1))
    } else if w == 118 {
        Some(('\x0b', i + 1))
    } else if w == 102 {
        Some(('\x0c', i + 1))
    } else if w == 114 {
        Some(('\r', i + 1))
    } else if w == 101 {
        Some(('\x1b', i + 1))
    } else if w == 34 {
        Some(('"', i + 1))
    } else if w == 92 {
        Some(('\\', i + 1))
    } else if w == 94 {
        if i + 1 == n {
            return None;
        }
        let c2 = input.get_char(i + 1);
        let u = c2 as u32;
        proof {
            assert(s[1] == input@[i + 1]);
        }
        if u == 63 {
            Some(('\x7f', i + 2))
        } else if 97 <= u && u <= 122 {
            Some((((u - 96) as u8) as char, i + 2))
        } else if 64 <= u && u <= 95 {
            Some((((u - 64) as u8) as char, i + 2))
        } else {
            None
        }
    } else if w == 117 {
        proof {
            assert(s.skip(1) =~= input@.skip(i + 1));
        }
        match unescape_unicode(input, i + 1, 4) {
            Some(p) => Some((p.0, p.1)),
            None => None,
        }
    } else if w == 85 {
        proof {
            assert(s.skip(1) =~= input@.skip(i + 1));
        }
        match unescape_unicode(input, i + 1, 8) {
            Some(p) => Some((p.0, p.1)),
            None => None,
        }
    } else {
        None
    }
}

/// Undo `escape`: interpret every backslash escape in `input`; absent on
/// a trailing or malformed escape.
pub fn unescape(input: &str) -> (r: Option<String>)
    ensures
        match r {
            Some(out) => unescape_spec(input@) == Some(out@),
            None => unescape_spec(input@) is None,
        },
{
    let ghost s = input@;
    let n = input.unicode_len();
    let mut out = String::new();
    let mut i: usize = 0;
    proof {
        assert(s.skip(0) =~= s);
        if unescape_spec(s) is Some {
            let rest = unescape_spec(s)->Some_0;
            assert(out@ + rest =~= rest);
        }
    }
    while i < n
        invariant
            i <= n,
            n == s.len(),
            input@ == s,
            unescape_spec(s) == (match unescape_spec(s.skip(i as int)) {
                Some(rest) => Some(out@ + rest),
                None => None::<Seq<char>>,
            }),
        decreases n - i,
    {
        let ghost out_pre = out@;
        let c = input.get_char(i);
        if c as u32 == 92 {
            proof {
                assert(s.skip(i as int).skip(1) =~= s.skip(i + 1));
            }
            match unescape_single(input, i + 1) {
                Some(p) => {
                    push_char(&mut out, p.0);
                    proof {
                        let used = 1 + (p.1 - (i + 1));
                        assert(s.skip(i as int).skip(used) =~= s.skip(p.1 as int));
                        assert forall|rest: Seq<char>|
                            out_pre + (seq![p.0] + rest) =~= out@ + rest by {}
                    }
                    i = p.1;
                },
                None => {
                    proof {
                        assert(unescape_spec(s.skip(i as int)) is None);
                    }
                    return None;
                },
            }
        } else {
            push_char(&mut out, c);
            proof {
                assert(s.skip(i as int).skip(1) =~= s.skip(i + 1));
                assert forall|rest: Seq<char>| out_pre + (seq![c] + rest) =~= out@ + rest by {}
            }
            i = i + 1;
        }
    }
    proof {
        assert(s.skip(n as int) =~= Seq::empty());
        assert(out@ + Seq::<char>::empty() =~= out@);
    }
    Some(out)
}

/// Two characters with the same scalar value are the same character.
proof fn lemma_char_code(a: char, b: char)
    requires
        a as u32 == b as u32,
    ensures
        a == b,
{
    vstd::utf8::char_u32_cast(a, a as u32);
    vstd::utf8::char_u32_cast(b, b as u32);
}

/// Unescaping one escaped character at the front of a text undoes the
/// escaping of that character.
proof fn lemma_unescape_escaped_char(c: char, rest: Seq<char>, rrest: Seq<char>)
    requires
        unescape_spec(rest) == Some(rrest),
    ensures
        unescape_spec(escape_char(c) + rest) == Some(seq![c] + rrest),
{
    let w = c as u32;
    let e0 = escape_char(c);
    let t = e0 + rest;
    assert(t[0] == e0[0]);
    if w == 0 {
        lemma_char_code(c, '\0');
        assert(t.skip(1)[0] == e0[1]);
        assert(t.skip(2) =~= rest);
    } else if w == 7 {
        lemma_char_code(c, '\x07');
        assert(t.skip(1)[0] == e0[1]);
        assert(t.skip(2) =~= rest);
    } else if w == 8 {
        lemma_char_code(c, '\x08');
        assert(t.skip(1)[0] == e0[1]);
        assert(t.skip(2) =~= rest);
    } else if w == 9 {
        lemma_char_code(c, '\t');
        assert(t.skip(1)[0] == e0[1]);
        assert(t.skip(2) =~= rest);
    } else if w == 10 {
        lemma_char_code(c, '\n');
        assert(t.skip(1)[0] == e0[1]);
        assert(t.skip(2) =~= rest);
    } else if w == 11 {
        lemma_char_code(c, '\x0b');
        assert(t.skip(1)[0] == e0[1]);
        assert(t.skip(2) =~= rest);
    } else if w == 12 {
        lemma_char_code(c, '\x0c');
        assert(t.skip(1)[0] == e0[1]);
        assert(t.skip(2) =~= rest);
    } else if w == 13 {
        lemma_char_code(c, '\r');
        assert(t.skip(1)[0] == e0[1]);
        assert(t.skip(2) =~= rest);
    } else if w == 27 {
        lemma_char_code(c, '\x1b');
        assert(t.skip(1)[0] == e0[1]);
        assert(t.skip(2) =~= rest);
    } else if w == 34 {
        lemma_char_code(c, '"');
        assert(t.skip(1)[0] == e0[1]);
        assert(t.skip(2) =~= rest);
    } else if w == 92 {
        lemma_char_code(c, '\\');
        assert(t.skip(1)[0] == e0[1]);
        assert(t.skip(2) =~= rest);
    } else if w == 127 {
        lemma_char_code(c, '\x7f');
        assert(t.skip(1)[0] == e0[1]);
        assert(t.skip(1)[1] == e0[2]);
        assert(t.skip(3) =~= rest);
    } else if 1 <= w && w <= 26 {
        let l = ((w + 96) as u8) as char;
        assert(l as u32 == w + 96);
        let back = (((l as u32) - 96) as u8) as char;
        assert(back as u32 == w);
        lemma_char_code(c, back);
        assert(t.skip(1)[0] == e0[1]);
        assert(t.skip(1)[1] == e0[2]);
        assert(t.skip(3) =~= rest);
    } else if 28 <= w && w <= 31 {
        let l = ((w + 64) as u8) as char;
        assert(l as u32 == w + 64);
        let back = (((l as u32) - 64) as u8) as char;
        assert(back as u32 == w);
        lemma_char_code(c, back);
        assert(t.skip(1)[0] == e0[1]);
        assert(t.skip(1)[1] == e0[2]);
        assert(t.skip(3) =~= rest);
    } else {
        assert(t[0] == c);
        assert(t.skip(1) =~= rest);
    }
}

/// Law: unescaping undoes escaping: for every text, `unescape` applied to
/// the output of `escape` yields the text back.
pub proof fn lemma_escape_unescape(s: Seq<char>)
    ensures
        unescape_spec(escape_spec(s)) == Some(s),
    decreases s.len(),
{
    if s.len() == 0 {
        assert(s =~= Seq::<char>::empty());
    } else {
        lemma_escape_unescape(s.skip(1));
        lemma_unescape_escaped_char(s[0], escape_spec(s.skip(1)), s.skip(1));
        assert(seq![s[0]] + s.skip(1) =~= s);
    }
}

} // verus!
