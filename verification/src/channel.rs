//! The metadata channel: a published record (the header directories of one
//! upstream unit) is framed as a small structured text form,
//! `dirs = ["...", ...]` with escapes for quote, backslash and
//! non-printable bytes, and the frame is then carried through a
//! text-safe transport encoding. Decoding inverts both layers exactly;
//! a string that is not such an encoding is rejected.

use vstd::prelude::*;

use base64::Engine;

use crate::order::views;

verus! {

pub const QUOTE: u8 = 34;

pub const BACKSLASH: u8 = 92;

pub const RBRACK: u8 = 93;

pub const COMMA: u8 = 44;

pub const LETTER_X: u8 = 120;

/// Bytes that stand for themselves inside a quoted string.
pub open spec fn plain_byte(b: u8) -> bool {
    32 <= b <= 126 && b != QUOTE && b != BACKSLASH
}

/// The lower-case hex digit for a value below 16.
pub open spec fn hex_digit(n: u8) -> u8 {
    if n < 10 {
        (48 + n) as u8
    } else {
        (87 + n) as u8
    }
}

pub open spec fn is_hex_lower(b: u8) -> bool {
    (48 <= b <= 57) || (97 <= b <= 102)
}

/// The value of a lower-case hex digit.
pub open spec fn hex_val(b: u8) -> u8 {
    if b <= 57 {
        (b - 48) as u8
    } else {
        (b - 87) as u8
    }
}

/// How one byte is written inside a quoted string.
pub open spec fn esc_byte(b: u8) -> Seq<u8> {
    if b == QUOTE {
        seq![BACKSLASH, QUOTE]
    } else if b == BACKSLASH {
        seq![BACKSLASH, BACKSLASH]
    } else if plain_byte(b) {
        seq![b]
    } else {
        seq![BACKSLASH, LETTER_X, hex_digit(b / 16), hex_digit(b % 16)]
    }
}

/// The escaped form of a whole byte string.
pub open spec fn esc(d: Seq<u8>) -> Seq<u8>
    decreases d.len(),
{
    if d.len() == 0 {
        Seq::empty()
    } else {
        esc_byte(d[0]) + esc(d.skip(1))
    }
}

/// A byte string between quotes.
pub open spec fn quoted(d: Seq<u8>) -> Seq<u8> {
    seq![QUOTE] + esc(d) + seq![QUOTE]
}

/// Comma-separated quoted strings.
pub open spec fn list_bytes(dirs: Seq<Seq<u8>>) -> Seq<u8>
    decreases dirs.len(),
{
    if dirs.len() == 0 {
        Seq::empty()
    } else if dirs.len() == 1 {
        quoted(dirs[0])
    } else {
        quoted(dirs[0]) + seq![COMMA] + list_bytes(dirs.skip(1))
    }
}

/// The frame's leading bytes: `dirs = [`.
pub open spec fn frame_head() -> Seq<u8> {
    seq![100u8, 105u8, 114u8, 115u8, 32u8, 61u8, 32u8, 91u8]
}

/// The full framed record for a sequence of directories.
pub open spec fn record_bytes(dirs: Seq<Seq<u8>>) -> Seq<u8> {
    frame_head() + list_bytes(dirs) + seq![RBRACK]
}

/// Escaping distributes over concatenation.
proof fn lemma_esc_hom(a: Seq<u8>, b: Seq<u8>)
    ensures
        esc(a + b) == esc(a) + esc(b),
    decreases a.len(),
{
    if a.len() == 0 {
        assert(a + b =~= b);
        assert(esc(a) + esc(b) =~= esc(b));
    } else {
        assert((a + b).len() > 0);
        assert((a + b)[0] == a[0]);
        assert((a + b).skip(1) =~= a.skip(1) + b);
        lemma_esc_hom(a.skip(1), b);
        assert(esc_byte(a[0]) + (esc(a.skip(1)) + esc(b)) =~= (esc_byte(a[0]) + esc(a.skip(1)))
            + esc(b));
    }
}

proof fn lemma_esc_snoc(d: Seq<u8>, j: int)
    requires
        0 <= j < d.len(),
    ensures
        esc(d.take(j + 1)) == esc(d.take(j)) + esc_byte(d[j]),
{
    assert(d.take(j + 1) =~= d.take(j) + seq![d[j]]);
    lemma_esc_hom(d.take(j), seq![d[j]]);
    assert(seq![d[j]].skip(1) =~= Seq::<u8>::empty());
    assert(seq![d[j]][0] == d[j]);
    assert(esc(seq![d[j]]) == esc_byte(d[j]) + esc(seq![d[j]].skip(1)));
    assert(esc(seq![d[j]].skip(1)) == Seq::<u8>::empty());
    assert(esc_byte(d[j]) + Seq::<u8>::empty() =~= esc_byte(d[j]));
}

/// A nonempty list's bytes end with a comma and its last quoted item.
proof fn lemma_list_snoc(dirs: Seq<Seq<u8>>)
    requires
        dirs.len() >= 1,
    ensures
        list_bytes(dirs) == if dirs.len() == 1 {
            quoted(dirs[0])
        } else {
            list_bytes(dirs.drop_last()) + seq![COMMA] + quoted(dirs.last())
        },
    decreases dirs.len(),
{
    if dirs.len() == 1 {
    } else if dirs.len() == 2 {
        assert(dirs.skip(1).len() == 1);
        assert(dirs.skip(1)[0] == dirs[1]);
        assert(dirs.drop_last() =~= seq![dirs[0]]);
        assert(list_bytes(dirs.drop_last()) == quoted(dirs[0]));
        assert(quoted(dirs[0]) + seq![COMMA] + quoted(dirs[1]) =~= quoted(dirs[0]) + (
        seq![COMMA] + quoted(dirs[1])));
        assert(list_bytes(dirs.skip(1)) == quoted(dirs[1]));
        assert(quoted(dirs[0]) + seq![COMMA] + list_bytes(dirs.skip(1)) =~= quoted(dirs[0]) + seq![
            COMMA,
        ] + quoted(dirs.last()));
    } else {
        let t = dirs.skip(1);
        lemma_list_snoc(t);
        assert(t.drop_last() =~= dirs.drop_last().skip(1));
        assert(t.last() == dirs.last());
        assert(dirs.drop_last().len() >= 2);
        assert(dirs.drop_last()[0] == dirs[0]);
        assert(list_bytes(dirs.drop_last()) == quoted(dirs[0]) + seq![COMMA] + list_bytes(
            dirs.drop_last().skip(1),
        ));
        assert(list_bytes(dirs) == quoted(dirs[0]) + seq![COMMA] + (list_bytes(t.drop_last()) + seq![
            COMMA,
        ] + quoted(dirs.last())));
        assert(quoted(dirs[0]) + seq![COMMA] + (list_bytes(t.drop_last()) + seq![COMMA] + quoted(
            dirs.last(),
        )) =~= (quoted(dirs[0]) + seq![COMMA] + list_bytes(t.drop_last())) + seq![COMMA] + quoted(
            dirs.last(),
        ));
    }
}

/// Lower-case hex digits round-trip through their value.
proof fn lemma_hex_digit(n: u8)
    requires
        n < 16,
    ensures
        is_hex_lower(hex_digit(n)),
        hex_val(hex_digit(n)) == n,
{
}

fn hex_digit_exec(n: u8) -> (r: u8)
    requires
        n < 16,
    ensures
        r == hex_digit(n),
{
    if n < 10 {
        48 + n
    } else {
        87 + n
    }
}

/// Append the escaped form of one byte.
fn push_esc_byte(out: &mut Vec<u8>, b: u8)
    ensures
        final(out)@ == old(out)@ + esc_byte(b),
{
    if b == QUOTE {
        out.push(BACKSLASH);
        out.push(QUOTE);
    } else if b == BACKSLASH {
        out.push(BACKSLASH);
        out.push(BACKSLASH);
    } else if 32 <= b && b <= 126 {
        out.push(b);
    } else {
        out.push(BACKSLASH);
        out.push(LETTER_X);
        out.push(hex_digit_exec(b / 16));
        out.push(hex_digit_exec(b % 16));
    }
    proof {
        assert(final(out)@ =~= old(out)@ + esc_byte(b));
    }
}

/// Build the framed record for the given directories.
pub fn encode_record(dirs: &Vec<Vec<u8>>) -> (r: Vec<u8>)
    ensures
        r@ == record_bytes(views(dirs@)),
{
    let ghost dv = views(dirs@);
    let mut out: Vec<u8> = Vec::new();
    out.push(100);
    out.push(105);
    out.push(114);
    out.push(115);
    out.push(32);
    out.push(61);
    out.push(32);
    out.push(91);
    proof {
        assert(out@ =~= frame_head());
        assert(out@ =~= frame_head() + list_bytes(dv.take(0)));
    }
    let mut i: usize = 0;
    while i < dirs.len()
        invariant
            i <= dirs.len(),
            dv == views(dirs@),
            out@ == frame_head() + list_bytes(dv.take(i as int)),
        decreases dirs.len() - i,
    {
        if i > 0 {
            out.push(COMMA);
        }
        out.push(QUOTE);
        let ghost mid = out@;
        let d = &dirs[i];
        proof {
            assert(d@ == dv[i as int]);
        }
        let mut j: usize = 0;
        while j < d.len()
            invariant
                j <= d.len(),
                d@ == dv[i as int],
                out@ == mid + esc(d@.take(j as int)),
            decreases d.len() - j,
        {
            proof {
                lemma_esc_snoc(d@, j as int);
            }
            push_esc_byte(&mut out, d[j]);
            j = j + 1;
        }
        proof {
            assert(d@.take(d@.len() as int) =~= d@);
        }
        out.push(QUOTE);
        proof {
            lemma_list_snoc(dv.take(i as int + 1));
            assert(dv.take(i as int + 1).drop_last() =~= dv.take(i as int));
            assert(dv.take(i as int + 1).last() == dv[i as int]);
            assert(dv.take(i as int + 1)[0] == dv[0]);
            if i == 0 {
                assert(mid =~= frame_head() + seq![QUOTE]);
                assert(out@ =~= frame_head() + quoted(dv[0]));
                assert(out@ =~= frame_head() + list_bytes(dv.take(1)));
            } else {
                assert(mid =~= frame_head() + list_bytes(dv.take(i as int)) + seq![COMMA, QUOTE]);
                assert(out@ =~= frame_head() + (list_bytes(dv.take(i as int)) + seq![COMMA]
                    + quoted(dv[i as int])));
                assert(out@ =~= frame_head() + list_bytes(dv.take(i as int + 1)));
            }
        }
        i = i + 1;
    }
    proof {
        assert(dv.take(dirs@.len() as int) =~= dv);
    }
    out.push(RBRACK);
    proof {
        assert(out@ =~= record_bytes(dv));
    }
    out
}

/// Parse the bytes of one quoted string after its opening quote.
/// Returns the unescaped content and how many bytes were consumed,
/// counting the closing quote.
pub open spec fn parse_body(s: Seq<u8>) -> Option<(Seq<u8>, nat)>
    decreases s.len(),
{
    if s.len() == 0 {
        None
    } else if s[0] == QUOTE {
        Some((Seq::empty(), 1nat))
    } else if s[0] == BACKSLASH {
        if s.len() >= 2 && (s[1] == QUOTE || s[1] == BACKSLASH) {
            match parse_body(s.skip(2)) {
                Some(t) => Some((seq![s[1]] + t.0, (t.1 + 2) as nat)),
                None => None,
            }
        } else if s.len() >= 4 && s[1] == LETTER_X && is_hex_lower(s[2]) && is_hex_lower(s[3]) {
            match parse_body(s.skip(4)) {
                Some(t) => Some(
                    (seq![(hex_val(s[2]) * 16 + hex_val(s[3])) as u8] + t.0, (t.1 + 4) as nat),
                ),
                None => None,
            }
        } else {
            None
        }
    } else if plain_byte(s[0]) {
        match parse_body(s.skip(1)) {
            Some(t) => Some((seq![s[0]] + t.0, (t.1 + 1) as nat)),
            None => None,
        }
    } else {
        None
    }
}

/// Parse a nonempty list of quoted strings running to the closing bracket,
/// which must be the last byte.
pub open spec fn parse_list(s: Seq<u8>) -> Option<Seq<Seq<u8>>>
    decreases s.len(),
{
    if s.len() >= 1 && s[0] == QUOTE {
        match parse_body(s.skip(1)) {
            Some(t) => {
                let nxt = 1 + t.1;
                if nxt + 1 == s.len() && s[nxt as int] == RBRACK {
                    Some(seq![t.0])
                } else if nxt + 1 < s.len() && s[nxt as int] == COMMA {
                    match parse_list(s.skip(nxt as int + 1)) {
                        Some(items) => Some(seq![t.0] + items),
                        None => None,
                    }
                } else {
                    None
                }
            },
            None => None,
        }
    } else {
        None
    }
}

/// Parse a whole framed record.
pub open spec fn parse_record(s: Seq<u8>) -> Option<Seq<Seq<u8>>> {
    if s.len() >= 9 && s.take(8) == frame_head() {
        if s.len() == 9 && s[8] == RBRACK {
            Some(Seq::empty())
        } else {
            parse_list(s.skip(8))
        }
    } else {
        None
    }
}

/// Parsing a quoted escaped string recovers exactly the original bytes and
/// consumes exactly through the closing quote.
proof fn lemma_parse_body_of_esc(d: Seq<u8>, rest: Seq<u8>)
    ensures
        parse_body(esc(d) + seq![QUOTE] + rest) == Some::<(Seq<u8>, nat)>(
            (d, (esc(d).len() + 1) as nat),
        ),
    decreases d.len(),
{
    let s = esc(d) + seq![QUOTE] + rest;
    if d.len() == 0 {
        assert(s =~= seq![QUOTE] + rest);
        assert(s[0] == QUOTE);
        assert(d =~= Seq::<u8>::empty());
    } else {
        let e0 = esc_byte(d[0]);
        let d1 = d.skip(1);
        lemma_parse_body_of_esc(d1, rest);
        let s1 = esc(d1) + seq![QUOTE] + rest;
        assert(esc(d) == e0 + esc(d1));
        assert(s =~= e0 + s1);
        let k1 = (esc(d1).len() + 1) as nat;
        if d[0] == QUOTE {
            assert(s[0] == BACKSLASH && s[1] == QUOTE);
            assert(s.len() >= 2);
            assert(s.skip(2) =~= s1);
            assert(seq![s[1]] + d1 =~= d);
            assert(parse_body(s) == Some::<(Seq<u8>, nat)>((d, (k1 + 2) as nat)));
            assert(esc(d).len() == 2 + esc(d1).len());
        } else if d[0] == BACKSLASH {
            assert(s[0] == BACKSLASH && s[1] == BACKSLASH);
            assert(s.len() >= 2);
            assert(s.skip(2) =~= s1);
            assert(seq![s[1]] + d1 =~= d);
            assert(parse_body(s) == Some::<(Seq<u8>, nat)>((d, (k1 + 2) as nat)));
            assert(esc(d).len() == 2 + esc(d1).len());
        } else if plain_byte(d[0]) {
            assert(s[0] == d[0]);
            assert(s.skip(1) =~= s1);
            assert(seq![s[0]] + d1 =~= d);
            assert(parse_body(s) == Some::<(Seq<u8>, nat)>((d, (k1 + 1) as nat)));
            assert(esc(d).len() == 1 + esc(d1).len());
        } else {
            let hi = (d[0] / 16) as u8;
            let lo = (d[0] % 16) as u8;
            lemma_hex_digit(hi);
            lemma_hex_digit(lo);
            assert(s[0] == BACKSLASH && s[1] == LETTER_X);
            assert(s[2] == hex_digit(hi) && s[3] == hex_digit(lo));
            assert(s.len() >= 4);
            assert(!(s[1] == QUOTE || s[1] == BACKSLASH));
            assert(s.skip(4) =~= s1);
            assert(hex_val(s[2]) == hi && hex_val(s[3]) == lo);
            assert((hex_val(s[2]) * 16 + hex_val(s[3])) as u8 == d[0]);
            assert(seq![d[0]] + d1 =~= d);
            assert(parse_body(s) == Some::<(Seq<u8>, nat)>((d, (k1 + 4) as nat)));
            assert(esc(d).len() == 4 + esc(d1).len());
        }
    }
}

/// Parsing a framed nonempty list recovers exactly the directories.
proof fn lemma_parse_list_of_record(dirs: Seq<Seq<u8>>)
    requires
        dirs.len() >= 1,
    ensures
        parse_list(list_bytes(dirs) + seq![RBRACK]) == Some(dirs),
    decreases dirs.len(),
{
    let s = list_bytes(dirs) + seq![RBRACK];
    if dirs.len() == 1 {
        assert(list_bytes(dirs) == quoted(dirs[0]));
        let e = esc(dirs[0]).len();
        lemma_parse_body_of_esc(dirs[0], seq![RBRACK]);
        assert(s =~= seq![QUOTE] + (esc(dirs[0]) + seq![QUOTE] + seq![RBRACK]));
        assert(s[0] == QUOTE);
        assert(s.skip(1) =~= esc(dirs[0]) + seq![QUOTE] + seq![RBRACK]);
        assert(parse_body(s.skip(1)) == Some::<(Seq<u8>, nat)>((dirs[0], (e + 1) as nat)));
        assert(s.len() == e + 3);
        assert(s[e as int + 2] == RBRACK);
        assert(parse_list(s) == Some(seq![dirs[0]]));
        assert(seq![dirs[0]] =~= dirs);
    } else {
        let t = dirs.skip(1);
        lemma_parse_list_of_record(t);
        let rest = seq![COMMA] + (list_bytes(t) + seq![RBRACK]);
        let e = esc(dirs[0]).len();
        lemma_parse_body_of_esc(dirs[0], rest);
        assert(list_bytes(dirs) == quoted(dirs[0]) + seq![COMMA] + list_bytes(t));
        assert(s =~= seq![QUOTE] + (esc(dirs[0]) + seq![QUOTE] + rest));
        assert(s[0] == QUOTE);
        assert(s.skip(1) =~= esc(dirs[0]) + seq![QUOTE] + rest);
        assert(parse_body(s.skip(1)) == Some::<(Seq<u8>, nat)>((dirs[0], (e + 1) as nat)));
        assert(s[e as int + 2] == COMMA);
        assert(s.len() == e + 3 + list_bytes(t).len() + 1);
        assert(e + 3 < s.len());
        assert(s.skip(e as int + 3) =~= list_bytes(t) + seq![RBRACK]);
        assert(parse_list(s) == Some(seq![dirs[0]] + t));
        assert(seq![dirs[0]] + t =~= dirs);
    }
}

/// The frame round-trips: parsing the encoded record gives back exactly
/// the encoded directories, whatever bytes they hold.
pub proof fn lemma_record_round_trip(dirs: Seq<Seq<u8>>)
    ensures
        parse_record(record_bytes(dirs)) == Some(dirs),
{
    let s = record_bytes(dirs);
    assert(s.take(8) =~= frame_head());
    if dirs.len() == 0 {
        assert(list_bytes(dirs) =~= Seq::<u8>::empty());
        assert(s =~= frame_head() + seq![RBRACK]);
        assert(s.len() == 9 && s[8] == RBRACK);
        assert(dirs =~= Seq::<Seq<u8>>::empty());
    } else {
        lemma_parse_list_of_record(dirs);
        assert(quoted(dirs[0]).len() == esc(dirs[0]).len() + 2);
        if dirs.len() == 1 {
            assert(list_bytes(dirs).len() >= 2);
        } else {
            assert(list_bytes(dirs) == quoted(dirs[0]) + seq![COMMA] + list_bytes(dirs.skip(1)));
            assert(list_bytes(dirs).len() >= 2);
        }
        assert(s.len() > 9);
        assert(s.skip(8) =~= list_bytes(dirs) + seq![RBRACK]);
    }
}

fn is_hex_lower_exec(b: u8) -> (r: bool)
    ensures
        r == is_hex_lower(b),
{
    (48 <= b && b <= 57) || (97 <= b && b <= 102)
}

fn hex_val_exec(b: u8) -> (r: u8)
    requires
        is_hex_lower(b),
    ensures
        r == hex_val(b),
        r < 16,
{
    if b <= 57 {
        b - 48
    } else {
        b - 87
    }
}

/// Run the quoted-string parser from position `i`.
fn parse_body_exec(s: &Vec<u8>, i: usize) -> (r: Option<(Vec<u8>, usize)>)
    requires
        i <= s.len(),
    ensures
        match r {
            Some(t) => i < t.1 && t.1 <= s@.len() && parse_body(s@.skip(i as int)) == Some::<
                (Seq<u8>, nat),
            >((t.0@, (t.1 - i) as nat)),
            None => parse_body(s@.skip(i as int)) is None,
        },
    decreases s@.len() - i,
{
    let ghost ss = s@.skip(i as int);
    proof {
        assert(ss.len() == s@.len() - i);
    }
    if i == s.len() {
        return None;
    }
    proof {
        assert(ss[0] == s@[i as int]);
    }
    let c0 = s[i];
    if c0 == QUOTE {
        let empty_content: Vec<u8> = Vec::new();
        return Some((empty_content, i + 1));
    }
    if c0 == BACKSLASH {
        if s.len() - i >= 2 && (s[i + 1] == QUOTE || s[i + 1] == BACKSLASH) {
            proof {
                assert(ss[1] == s@[i as int + 1]);
                assert(ss.skip(2) =~= s@.skip(i as int + 2));
            }
            match parse_body_exec(s, i + 2) {
                Some((mut c, j)) => {
                    let b = s[i + 1];
                    c.insert(0, b);
                    proof {
                        assert(c@ =~= seq![ss[1]] + c@.skip(1));
                    }
                    return Some((c, j));
                },
                None => {
                    return None;
                },
            }
        } else if s.len() - i >= 4 && s[i + 1] == LETTER_X && is_hex_lower_exec(s[i + 2])
            && is_hex_lower_exec(s[i + 3]) {
            proof {
                assert(ss[1] == s@[i as int + 1]);
                assert(ss[2] == s@[i as int + 2]);
                assert(ss[3] == s@[i as int + 3]);
                assert(ss.skip(4) =~= s@.skip(i as int + 4));
            }
            let hv = hex_val_exec(s[i + 2]);
            let lv = hex_val_exec(s[i + 3]);
            let b = hv * 16 + lv;
            match parse_body_exec(s, i + 4) {
                Some((mut c, j)) => {
                    c.insert(0, b);
                    proof {
                        assert(c@ =~= seq![(hex_val(ss[2]) * 16 + hex_val(ss[3])) as u8] + c@.skip(
                            1,
                        ));
                    }
                    return Some((c, j));
                },
                None => {
                    return None;
                },
            }
        } else {
            proof {
                assert(ss[1] == s@[i as int + 1] || ss.len() < 2);
                if ss.len() >= 2 {
                    assert(ss[1] == s@[i as int + 1]);
                }
                if ss.len() >= 4 {
                    assert(ss[2] == s@[i as int + 2]);
                    assert(ss[3] == s@[i as int + 3]);
                }
            }
            return None;
        }
    }
    if 32 <= c0 && c0 <= 126 {
        proof {
            assert(ss.skip(1) =~= s@.skip(i as int + 1));
        }
        match parse_body_exec(s, i + 1) {
            Some((mut c, j)) => {
                c.insert(0, c0);
                proof {
                    assert(c@ =~= seq![ss[0]] + c@.skip(1));
                }
                Some((c, j))
            },
            None => None,
        }
    } else {
        None
    }
}

/// Run the list parser from position `i`.
fn parse_list_exec(s: &Vec<u8>, i: usize) -> (r: Option<Vec<Vec<u8>>>)
    requires
        i <= s.len(),
    ensures
        match r {
            Some(items) => parse_list(s@.skip(i as int)) == Some(views(items@)),
            None => parse_list(s@.skip(i as int)) is None,
        },
    decreases s@.len() - i,
{
    let ghost ss = s@.skip(i as int);
    proof {
        assert(ss.len() == s@.len() - i);
    }
    if i == s.len() {
        return None;
    }
    proof {
        assert(ss[0] == s@[i as int]);
    }
    if s[i] != QUOTE {
        return None;
    }
    proof {
        assert(ss.skip(1) =~= s@.skip(i as int + 1));
    }
    match parse_body_exec(s, i + 1) {
        None => None,
        Some((item, j)) => {
            let ghost t1 = (j - i - 1) as nat;
            let ghost nxt = 1 + t1;
            proof {
                assert(nxt == j - i);
            }
            if j == s.len() {
                proof {
                    assert(nxt + 1 > ss.len());
                }
                return None;
            }
            proof {
                assert(ss[nxt as int] == s@[j as int]);
            }
            let ch = s[j];
            if j == s.len() - 1 && ch == RBRACK {
                proof {
                    assert(nxt + 1 == ss.len());
                }
                let mut items: Vec<Vec<u8>> = Vec::new();
                items.push(item);
                proof {
                    assert(views(items@) =~= seq![item@]);
                }
                Some(items)
            } else if ch == COMMA && j < s.len() - 1 {
                proof {
                    assert(nxt + 1 < ss.len());
                    assert(ss.skip(nxt as int + 1) =~= s@.skip(j as int + 1));
                }
                match parse_list_exec(s, j + 1) {
                    Some(mut items) => {
                        items.insert(0, item);
                        proof {
                            assert(views(items@) =~= seq![item@] + views(items@.skip(1)));
                            assert(views(items@.skip(1)) =~= views(items@).skip(1));
                        }
                        Some(items)
                    },
                    None => None,
                }
            } else {
                None
            }
        },
    }
}

/// Run the record parser on a whole buffer.
pub fn parse_record_exec(s: &Vec<u8>) -> (r: Option<Vec<Vec<u8>>>)
    ensures
        match r {
            Some(items) => parse_record(s@) == Some(views(items@)),
            None => parse_record(s@) is None,
        },
{
    if s.len() < 9 {
        return None;
    }
    let head_ok = s[0] == 100 && s[1] == 105 && s[2] == 114 && s[3] == 115 && s[4] == 32 && s[5]
        == 61 && s[6] == 32 && s[7] == 91;
    proof {
        assert(forall|k: int| 0 <= k < 8 ==> s@.take(8)[k] == s@[k]);
    }
    if !head_ok {
        proof {
            if s@.take(8) == frame_head() {
                assert(s@[0] == 100 && s@[1] == 105 && s@[2] == 114 && s@[3] == 115 && s@[4] == 32
                    && s@[5] == 61 && s@[6] == 32 && s@[7] == 91);
            }
        }
        return None;
    }
    proof {
        assert(s@.take(8) =~= frame_head());
    }
    if s.len() == 9 {
        let c = s[8];
        if c == RBRACK {
            let items: Vec<Vec<u8>> = Vec::new();
            proof {
                assert(views(items@) =~= Seq::<Seq<u8>>::empty());
            }
            return Some(items);
        }
    }
    parse_list_exec(s, 8)
}

/// One record crossing the propagation channel: the header directories
/// published by one upstream unit.
#[derive(Debug, Clone, PartialEq, Eq)]
pub struct Dependency {
    pub dirs: Vec<Vec<u8>>,
}

impl View for Dependency {
    type V = Seq<Seq<u8>>;

    open spec fn view(&self) -> Seq<Seq<u8>> {
        views(self.dirs@)
    }
}

/// Why a channel value was rejected.
#[derive(Debug, Clone, Copy, PartialEq, Eq)]
pub enum DecodeError {
    /// The value is not valid transport text.
    Transport,
    /// The transported payload is not a well-formed record frame.
    Malformed,
}

/// The transport encoding of a payload, as the outside engine produces it.
pub uninterp spec fn b64_text(payload: Seq<u8>) -> Seq<u8>;

/// What the outside engine decodes a transport text to, `None` on text it
/// rejects: a pure function of the text.
pub uninterp spec fn b64_decoded(text: Seq<u8>) -> Option<Seq<u8>>;

/// Whether a channel value decodes end to end: the transport text decodes
/// and the payload parses as a record frame.
pub open spec fn channel_value_ok(v: Seq<u8>) -> bool {
    b64_decoded(v) is Some && parse_record(b64_decoded(v).unwrap()) is Some
}

/// Relies on base64's `Engine::encode` with the padded URL-safe alphabet:
/// the output is a pure function of the input bytes. The length bound keeps
/// the engine's output-size computation from overflowing, on which it panics.
#[verifier::external_body]
fn b64_encode(payload: &Vec<u8>) -> (r: Vec<u8>)
    requires
        payload@.len() <= usize::MAX / 4,
    ensures
        r@ == b64_text(payload@),
{
    base64::prelude::BASE64_URL_SAFE.encode(payload.as_slice()).into_bytes()
}

/// Relies on base64's `Engine::decode` with the padded URL-safe alphabet:
/// what it returns is a pure function of the text, and decoding inverts
/// encoding, so on the image of the encoder it succeeds and returns the
/// unique preimage.
#[verifier::external_body]
fn b64_decode(text: &Vec<u8>) -> (r: Option<Vec<u8>>)
    ensures
        forall|p: Seq<u8>| text@ == #[trigger] b64_text(p) ==> (r is Some && r.unwrap()@ == p),
        r is Some <==> b64_decoded(text@) is Some,
        r is Some ==> r.unwrap()@ == b64_decoded(text@).unwrap(),
{
    match base64::prelude::BASE64_URL_SAFE.decode(text.as_slice()) {
        Ok(v) => Some(v),
        Err(_) => None,
    }
}

/// Encode a record for the channel. `None` only when the framed record is
/// too large for the transport encoding, a machine limit.
pub fn encode(d: &Dependency) -> (r: Option<Vec<u8>>)
    ensures
        r is Some <==> record_bytes(d@).len() <= usize::MAX / 4,
        r is Some ==> r.unwrap()@ == b64_text(record_bytes(d@)),
{
    let payload = encode_record(&d.dirs);
    if payload.len() <= usize::MAX / 4 {
        Some(b64_encode(&payload))
    } else {
        None
    }
}

/// Decode a channel value. Whenever the value is the encoding of some
/// record, decoding returns exactly that record: the channel round-trips.
/// Conversely, decoding succeeds exactly on the values whose transport
/// text decodes to a parsable frame; each error names the layer at fault.
pub fn decode(text: &Vec<u8>) -> (r: Result<Dependency, DecodeError>)
    ensures
        forall|dirs: Seq<Seq<u8>>|
            text@ == b64_text(#[trigger] record_bytes(dirs)) ==> (r is Ok && r.unwrap()@ == dirs),
        r is Err ==> forall|dirs: Seq<Seq<u8>>| text@ != b64_text(#[trigger] record_bytes(dirs)),
        r is Ok <==> channel_value_ok(text@),
        r is Ok ==> Some(r.unwrap()@) == parse_record(b64_decoded(text@).unwrap()),
        r == Err::<Dependency, DecodeError>(DecodeError::Transport) <==> b64_decoded(text@)
            is None,
        r == Err::<Dependency, DecodeError>(DecodeError::Malformed) <==> (b64_decoded(text@)
            is Some && !channel_value_ok(text@)),
{
    let payload = match b64_decode(text) {
        Some(p) => p,
        None => {
            return Err(DecodeError::Transport);
        },
    };
    let parsed = parse_record_exec(&payload);
    proof {
        assert forall|dirs: Seq<Seq<u8>>|
            text@ == b64_text(#[trigger] record_bytes(dirs)) implies parse_record(payload@)
            == Some(dirs) by {
            lemma_record_round_trip(dirs);
        }
    }
    match parsed {
        Some(items) => Ok(Dependency { dirs: items }),
        None => Err(DecodeError::Malformed),
    }
}

} // verus!
