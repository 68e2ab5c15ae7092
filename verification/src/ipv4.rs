//! Parsing and rendering of IPv4 addresses in dotted-quad text form.
//!
//! An address is a 32-bit unsigned integer. Its canonical text form is
//! four dot-separated decimal octets, each in `[0, 255]`, written without
//! leading zeros. `spec_parse_ipv4` is the grammar: split the text on `'.'`
//! and require exactly four valid octet strings. `parse_ipv4` and
//! `render_ipv4` are verified against it, and `lemma_parse_render_roundtrip`
//! shows that rendering then parsing gives back the integer it started from.
use vstd::prelude::*;
use vstd::string::*;
use vstd::arithmetic::div_mod::lemma_div_is_ordered;

verus! {

/// The ten decimal digit characters.
pub open spec fn is_dec_digit(c: char) -> bool {
    c == '0' || c == '1' || c == '2' || c == '3' || c == '4' || c == '5' || c == '6' || c == '7'
        || c == '8' || c == '9'
}

/// Numeric value of a decimal digit character.
pub open spec fn digit_val(c: char) -> nat
    recommends
        is_dec_digit(c),
{
    if c == '0' {
        0
    } else if c == '1' {
        1
    } else if c == '2' {
        2
    } else if c == '3' {
        3
    } else if c == '4' {
        4
    } else if c == '5' {
        5
    } else if c == '6' {
        6
    } else if c == '7' {
        7
    } else if c == '8' {
        8
    } else {
        9
    }
}

pub open spec fn all_dec_digits(s: Seq<char>) -> bool {
    forall|i: int| 0 <= i < s.len() ==> is_dec_digit(#[trigger] s[i])
}

/// Value of a string of decimal digits, most significant digit first.
pub open spec fn dec_val(s: Seq<char>) -> nat
    recommends
        all_dec_digits(s),
    decreases s.len(),
{
    if s.len() == 0 {
        0
    } else {
        dec_val(s.drop_last()) * 10 + digit_val(s.last())
    }
}

/// A valid octet string: one to three decimal digits, no leading zero,
/// value at most 255.
pub open spec fn valid_octet(s: Seq<char>) -> bool {
    &&& 1 <= s.len() <= 3
    &&& all_dec_digits(s)
    &&& (s.len() == 1 || s[0] != '0')
    &&& dec_val(s) <= 255
}

/// Split a character sequence at every `'.'`. The dots themselves are not
/// kept; n dots give n + 1 parts, so the empty sequence gives one empty part.
pub open spec fn split_dots(s: Seq<char>) -> Seq<Seq<char>>
    decreases s.len(),
{
    if s.len() == 0 {
        seq![Seq::<char>::empty()]
    } else {
        let rest = split_dots(s.drop_last());
        if s.last() == '.' {
            rest.push(Seq::<char>::empty())
        } else {
            rest.update(rest.len() - 1, rest.last().push(s.last()))
        }
    }
}

/// The 32-bit value of four octets, most significant first.
pub open spec fn quad_val(a: nat, b: nat, c: nat, d: nat) -> nat {
    ((a * 256 + b) * 256 + c) * 256 + d
}

/// The grammar of a dotted-quad IPv4 address: splitting on dots must give
/// exactly four valid octet strings; the value reads them big-endian.
pub open spec fn spec_parse_ipv4(s: Seq<char>) -> Option<u32> {
    let parts = split_dots(s);
    if parts.len() == 4 && valid_octet(parts[0]) && valid_octet(parts[1]) && valid_octet(parts[2])
        && valid_octet(parts[3]) {
        Some(quad_val(dec_val(parts[0]), dec_val(parts[1]), dec_val(parts[2]), dec_val(parts[3])) as u32)
    } else {
        None
    }
}

proof fn lemma_split_dots_len(s: Seq<char>)
    ensures
        split_dots(s).len() >= 1,
    decreases s.len(),
{
    if s.len() > 0 {
        lemma_split_dots_len(s.drop_last());
    }
}

/// A prefix `p` of a would-be octet string that no continuation can save:
/// whatever follows it up to the next dot, the octet is invalid.
spec fn doomed_octet_prefix(p: Seq<char>) -> bool {
    ||| p.len() > 3
    ||| p.len() >= 2 && p[0] == '0'
    ||| exists|i: int| 0 <= i < p.len() && !is_dec_digit(#[trigger] p[i])
    ||| dec_val(p) > 255
}

proof fn lemma_dec_val_single(x: Seq<char>)
    requires
        x.len() == 1,
    ensures
        dec_val(x) == digit_val(x[0]),
{
    assert(x.drop_last().len() == 0);
    assert(dec_val(x.drop_last()) == 0);
    assert(x.last() == x[0]);
}

proof fn lemma_dec_val_prefix(p: Seq<char>, e: Seq<char>)
    requires
        p.is_prefix_of(e),
    ensures
        dec_val(e) >= dec_val(p),
    decreases e.len(),
{
    if p.len() == e.len() {
        assert(p =~= e);
    } else {
        assert(p.is_prefix_of(e.drop_last())) by {
            assert(p =~= e.drop_last().subrange(0, p.len() as int));
        }
        lemma_dec_val_prefix(p, e.drop_last());
    }
}

proof fn lemma_doomed(p: Seq<char>, e: Seq<char>)
    requires
        p.is_prefix_of(e),
        doomed_octet_prefix(p),
    ensures
        !valid_octet(e),
{
    assert(forall|i: int| 0 <= i < p.len() ==> p[i] == e[i]) by {
        assert(p =~= e.subrange(0, p.len() as int));
    }
    if p.len() > 3 {
    } else if p.len() >= 2 && p[0] == '0' {
        assert(e[0] == '0');
    } else if exists|i: int| 0 <= i < p.len() && !is_dec_digit(#[trigger] p[i]) {
        let i = choose|i: int| 0 <= i < p.len() && !is_dec_digit(#[trigger] p[i]);
        assert(!is_dec_digit(e[i]));
    } else {
        lemma_dec_val_prefix(p, e);
    }
}

/// Parts of a prefix of the input persist into the split of the whole
/// input: every part before the last is final, and the last part of the
/// prefix's split is a prefix of the part at the same position in the
/// whole input's split.
proof fn lemma_split_extend(s: Seq<char>, i: int)
    requires
        0 <= i <= s.len(),
    ensures
        split_dots(s).len() >= split_dots(s.subrange(0, i)).len(),
        forall|j: int|
            0 <= j < split_dots(s.subrange(0, i)).len() - 1 ==> split_dots(s)[j] == #[trigger] split_dots(
                s.subrange(0, i),
            )[j],
        split_dots(s.subrange(0, i)).last().is_prefix_of(
            split_dots(s)[split_dots(s.subrange(0, i)).len() - 1],
        ),
    decreases s.len() - i,
{
    let a = split_dots(s.subrange(0, i));
    lemma_split_dots_len(s.subrange(0, i));
    if i == s.len() {
        assert(s.subrange(0, i) =~= s);
        assert(a.last() =~= a.last().subrange(0, a.last().len() as int));
    } else {
        let p = s.subrange(0, i);
        let p1 = s.subrange(0, i + 1);
        assert(p1.drop_last() =~= p);
        assert(p1.last() == s[i]);
        let a1 = split_dots(p1);
        lemma_split_extend(s, i + 1);
        if s[i] == '.' {
            assert(a1 == a.push(Seq::<char>::empty()));
            assert(a.last() =~= a.last().subrange(0, a.last().len() as int));
            assert(split_dots(s)[a.len() - 1] == a1[a.len() - 1]);
            assert forall|j: int| 0 <= j < a.len() - 1 implies split_dots(s)[j] == a[j] by {
                assert(split_dots(s)[j] == a1[j]);
                assert(a1[j] == a[j]);
            }
        } else {
            assert(a1 == a.update(a.len() - 1, a.last().push(s[i])));
            assert(a1.len() == a.len());
            assert forall|j: int| 0 <= j < a.len() - 1 implies split_dots(s)[j] == a[j] by {
                assert(split_dots(s)[j] == a1[j]);
                assert(a1[j] == a[j]);
            }
            let w = split_dots(s)[a.len() - 1];
            assert(a1.last().is_prefix_of(w));
            assert(a.last().is_prefix_of(w)) by {
                assert(a1.last() == a.last().push(s[i]));
                assert(forall|k: int| 0 <= k < a1.last().len() ==> a1.last()[k] == w[k]) by {
                    assert(a1.last() =~= w.subrange(0, a1.last().len() as int));
                }
                assert(a.last() =~= w.subrange(0, a.last().len() as int));
            }
        }
    }
}

/// A part of the split that is no valid octet refuses the whole input.
proof fn lemma_reject_by_part(s: Seq<char>, j: int)
    requires
        0 <= j <= 3,
        j < split_dots(s).len(),
        !valid_octet(split_dots(s)[j]),
    ensures
        spec_parse_ipv4(s) is None,
{
}

/// The loop state of the parser over the processed prefix `pre`: the
/// completed parts are valid octets with the recorded values, and the part
/// still being read is a digit string that some valid octet may extend.
spec fn parse_state(
    pre: Seq<char>,
    ndots: int,
    o0: u32,
    o1: u32,
    o2: u32,
    cur_val: u32,
    cur_len: int,
) -> bool {
    let sp = split_dots(pre);
    &&& sp.len() == ndots + 1
    &&& 0 <= ndots <= 3
    &&& forall|j: int| 0 <= j < ndots ==> valid_octet(#[trigger] sp[j])
    &&& (ndots >= 1 ==> dec_val(sp[0]) == o0 as nat)
    &&& (ndots >= 2 ==> dec_val(sp[1]) == o1 as nat)
    &&& (ndots >= 3 ==> dec_val(sp[2]) == o2 as nat)
    &&& all_dec_digits(sp[ndots])
    &&& sp[ndots].len() == cur_len
    &&& dec_val(sp[ndots]) == cur_val as nat
    &&& cur_val <= 255
    &&& 0 <= cur_len <= 3
    &&& (cur_len >= 2 ==> sp[ndots][0] != '0')
}

/// The digit value of a character, if it is a decimal digit.
fn digit_of(c: char) -> (r: Option<u32>)
    ensures
        match r {
            Some(d) => is_dec_digit(c) && d as nat == digit_val(c),
            None => !is_dec_digit(c),
        },
{
    match c {
        '0' => Some(0u32),
        '1' => Some(1u32),
        '2' => Some(2u32),
        '3' => Some(3u32),
        '4' => Some(4u32),
        '5' => Some(5u32),
        '6' => Some(6u32),
        '7' => Some(7u32),
        '8' => Some(8u32),
        '9' => Some(9u32),
        _ => None,
    }
}

/// Parse dotted-quad IPv4 text. Returns the address exactly when the text
/// matches the grammar `spec_parse_ipv4`, and `None` otherwise.
pub fn parse_ipv4(s: &str) -> (r: Option<u32>)
    ensures
        r == spec_parse_ipv4(s@),
{
    let n: usize = s.unicode_len();
    let mut i: usize = 0;
    let mut ndots: usize = 0;
    let mut o0: u32 = 0;
    let mut o1: u32 = 0;
    let mut o2: u32 = 0;
    let mut cur_val: u32 = 0;
    let mut cur_len: usize = 0;
    while i < n
        invariant
            n == s@.len(),
            0 <= i <= n,
            ndots <= 3,
            o0 <= 255,
            o1 <= 255,
            o2 <= 255,
            parse_state(
                s@.subrange(0, i as int),
                ndots as int,
                o0,
                o1,
                o2,
                cur_val,
                cur_len as int,
            ),
        decreases n - i,
    {
        let ghost pre = s@.subrange(0, i as int);
        let ghost sp = split_dots(pre);
        proof {
            lemma_split_dots_len(pre);
        }
        let c = s.get_char(i);
        let ghost pre1 = s@.subrange(0, i as int + 1);
        proof {
            assert(pre1.drop_last() =~= pre);
            assert(pre1.last() == c);
        }
        if c == '.' {
            proof {
                assert(split_dots(pre1) == sp.push(Seq::<char>::empty()));
            }
            if cur_len == 0 {
                proof {
                    lemma_split_extend(s@, i as int + 1);
                    assert(split_dots(pre1)[ndots as int] == sp[ndots as int]);
                    assert(split_dots(s@)[ndots as int] == split_dots(pre1)[ndots as int]);
                    lemma_reject_by_part(s@, ndots as int);
                }
                return None;
            }
            if ndots == 3 {
                proof {
                    lemma_split_extend(s@, i as int + 1);
                    assert(split_dots(s@).len() >= 5);
                }
                return None;
            }
            proof {
                assert(valid_octet(sp[ndots as int]));
                assert(dec_val(Seq::<char>::empty()) == 0);
                assert(forall|j: int|
                    0 <= j <= ndots ==> split_dots(pre1)[j] == #[trigger] sp[j]);
                assert(split_dots(pre1)[ndots as int + 1] =~= Seq::<char>::empty());
            }
            if ndots == 0 {
                o0 = cur_val;
            } else if ndots == 1 {
                o1 = cur_val;
            } else {
                o2 = cur_val;
            }
            ndots = ndots + 1;
            cur_val = 0;
            cur_len = 0;
            proof {
                assert(parse_state(pre1, ndots as int, o0, o1, o2, cur_val, cur_len as int));
            }
        } else {
            let ghost cur1 = sp[ndots as int].push(c);
            proof {
                assert(split_dots(pre1) == sp.update(sp.len() - 1, sp.last().push(c)));
                assert(split_dots(pre1)[ndots as int] == cur1);
                assert(split_dots(pre1).len() == ndots + 1);
                assert(cur1.drop_last() =~= sp[ndots as int]);
                assert(dec_val(cur1) == (cur_val as nat) * 10 + digit_val(c));
            }
            let d = digit_of(c);
            match d {
                None => {
                    proof {
                        assert(!is_dec_digit(cur1.last()));
                        assert(doomed_octet_prefix(cur1));
                        lemma_split_extend(s@, i as int + 1);
                        lemma_doomed(cur1, split_dots(s@)[ndots as int]);
                        lemma_reject_by_part(s@, ndots as int);
                    }
                    return None;
                },
                Some(dv) => {
                    if cur_len == 3 {
                        proof {
                            assert(doomed_octet_prefix(cur1));
                            lemma_split_extend(s@, i as int + 1);
                            lemma_doomed(cur1, split_dots(s@)[ndots as int]);
                            lemma_reject_by_part(s@, ndots as int);
                        }
                        return None;
                    }
                    if cur_len == 1 && cur_val == 0 {
                        proof {
                            lemma_dec_val_single(sp[ndots as int]);
                            assert(is_dec_digit(sp[ndots as int][0]));
                            assert(sp[ndots as int][0] == '0');
                            assert(cur1[0] == '0');
                            assert(doomed_octet_prefix(cur1));
                            lemma_split_extend(s@, i as int + 1);
                            lemma_doomed(cur1, split_dots(s@)[ndots as int]);
                            lemma_reject_by_part(s@, ndots as int);
                        }
                        return None;
                    }
                    let nv: u32 = cur_val * 10 + dv;
                    if nv > 255 {
                        proof {
                            assert(dec_val(cur1) > 255);
                            assert(doomed_octet_prefix(cur1));
                            lemma_split_extend(s@, i as int + 1);
                            lemma_doomed(cur1, split_dots(s@)[ndots as int]);
                            lemma_reject_by_part(s@, ndots as int);
                        }
                        return None;
                    }
                    proof {
                        assert(all_dec_digits(cur1));
                        if cur_len == 1 {
                            lemma_dec_val_single(sp[ndots as int]);
                            assert(is_dec_digit(sp[ndots as int][0]));
                            assert(sp[ndots as int][0] != '0');
                            assert(cur1[0] != '0');
                        }
                        if cur_len >= 2 {
                            assert(cur1[0] == sp[ndots as int][0]);
                        }
                        assert(forall|j: int|
                            0 <= j < ndots ==> split_dots(pre1)[j] == #[trigger] sp[j]);
                    }
                    cur_val = nv;
                    cur_len = cur_len + 1;
                    proof {
                        assert(parse_state(pre1, ndots as int, o0, o1, o2, cur_val, cur_len as int));
                    }
                },
            }
        }
        i = i + 1;
    }
    proof {
        assert(s@.subrange(0, i as int) =~= s@);
    }
    if ndots != 3 {
        return None;
    }
    if cur_len == 0 {
        proof {
            lemma_reject_by_part(s@, 3);
        }
        return None;
    }
    let ghost sp = split_dots(s@);
    proof {
        assert(valid_octet(sp[3]));
        assert(quad_val(dec_val(sp[0]), dec_val(sp[1]), dec_val(sp[2]), dec_val(sp[3]))
            == ((o0 as nat * 256 + o1 as nat) * 256 + o2 as nat) * 256 + cur_val as nat);
    }
    Some(((o0 * 256 + o1) * 256 + o2) * 256 + cur_val)
}

/// The decimal digit character for a digit value.
pub open spec fn digit_char(d: nat) -> char
    recommends
        d <= 9,
{
    if d == 0 {
        '0'
    } else if d == 1 {
        '1'
    } else if d == 2 {
        '2'
    } else if d == 3 {
        '3'
    } else if d == 4 {
        '4'
    } else if d == 5 {
        '5'
    } else if d == 6 {
        '6'
    } else if d == 7 {
        '7'
    } else if d == 8 {
        '8'
    } else {
        '9'
    }
}

/// Canonical decimal text of an octet value: no leading zeros, so one,
/// two or three digits by the size of the value.
pub open spec fn spec_render_octet(v: nat) -> Seq<char>
    recommends
        v <= 255,
{
    if v < 10 {
        seq![digit_char(v)]
    } else if v < 100 {
        seq![digit_char(v / 10), digit_char(v % 10)]
    } else {
        seq![digit_char(v / 100), digit_char((v / 10) % 10), digit_char(v % 10)]
    }
}

/// The most significant octet of an address.
pub open spec fn oct0(a: u32) -> nat {
    a as nat / 0x1000000
}

pub open spec fn oct1(a: u32) -> nat {
    (a as nat / 0x10000) % 256
}

pub open spec fn oct2(a: u32) -> nat {
    (a as nat / 256) % 256
}

/// The least significant octet of an address.
pub open spec fn oct3(a: u32) -> nat {
    a as nat % 256
}

/// Canonical dotted-quad text of an address, most significant octet first.
pub open spec fn spec_render_ipv4(a: u32) -> Seq<char> {
    spec_render_octet(oct0(a)) + seq!['.'] + spec_render_octet(oct1(a)) + seq!['.']
        + spec_render_octet(oct2(a)) + seq!['.'] + spec_render_octet(oct3(a))
}

/// The text of a single decimal digit.
fn digit_str(d: u32) -> (r: &'static str)
    requires
        d <= 9,
    ensures
        r@ == seq![digit_char(d as nat)],
{
    proof {
        reveal_strlit("0");
        reveal_strlit("1");
        reveal_strlit("2");
        reveal_strlit("3");
        reveal_strlit("4");
        reveal_strlit("5");
        reveal_strlit("6");
        reveal_strlit("7");
        reveal_strlit("8");
        reveal_strlit("9");
    }
    let r = if d == 0 {
        "0"
    } else if d == 1 {
        "1"
    } else if d == 2 {
        "2"
    } else if d == 3 {
        "3"
    } else if d == 4 {
        "4"
    } else if d == 5 {
        "5"
    } else if d == 6 {
        "6"
    } else if d == 7 {
        "7"
    } else if d == 8 {
        "8"
    } else {
        "9"
    };
    assert(r@ =~= seq![digit_char(d as nat)]);
    r
}

/// Render one octet value as decimal text.
fn render_octet(v: u32) -> (r: String)
    requires
        v <= 255,
    ensures
        r@ == spec_render_octet(v as nat),
{
    let mut r = String::new();
    if v >= 100 {
        r.append(digit_str(v / 100));
    }
    if v >= 10 {
        r.append(digit_str((v / 10) % 10));
    }
    r.append(digit_str(v % 10));
    proof {
        if v < 10 {
            assert(r@ =~= spec_render_octet(v as nat));
        } else if v < 100 {
            assert((v / 10) % 10 == v / 10);
            assert(r@ =~= spec_render_octet(v as nat));
        } else {
            assert(r@ =~= spec_render_octet(v as nat));
        }
    }
    r
}

proof fn lemma_render_octet_valid(v: nat)
    requires
        v <= 255,
    ensures
        valid_octet(spec_render_octet(v)),
        dec_val(spec_render_octet(v)) == v,
{
    let r = spec_render_octet(v);
    if v < 10 {
        lemma_dec_val_single(r);
    } else if v < 100 {
        assert(r.drop_last() =~= seq![digit_char(v / 10)]);
        lemma_dec_val_single(r.drop_last());
        assert(dec_val(r) == (v / 10) * 10 + v % 10);
        assert(v / 10 >= 1);
    } else {
        assert(r.drop_last() =~= seq![digit_char(v / 100), digit_char((v / 10) % 10)]);
        assert(r.drop_last().drop_last() =~= seq![digit_char(v / 100)]);
        lemma_dec_val_single(r.drop_last().drop_last());
        assert(dec_val(r.drop_last()) == (v / 100) * 10 + (v / 10) % 10);
        assert(v / 100 >= 1);
        assert(v / 10 == (v / 100) * 10 + (v / 10) % 10) by {
            vstd::arithmetic::div_mod::lemma_div_denominator(v as int, 10, 10);
            vstd::arithmetic::div_mod::lemma_fundamental_div_mod(v as int / 10, 10);
        }
        assert(dec_val(r) == (v / 10) * 10 + v % 10);
    }
}

/// Splitting is unchanged by appending dot-free text: it only grows the
/// last part.
proof fn lemma_split_append_dot_free(s: Seq<char>, t: Seq<char>)
    requires
        forall|i: int| 0 <= i < t.len() ==> t[i] != '.',
    ensures
        split_dots(s + t) == split_dots(s).update(
            split_dots(s).len() - 1,
            split_dots(s).last() + t,
        ),
    decreases t.len(),
{
    lemma_split_dots_len(s);
    let a = split_dots(s);
    if t.len() == 0 {
        assert(s + t =~= s);
        assert(a.last() + t =~= a.last());
        assert(a.update(a.len() - 1, a.last() + t) =~= a);
    } else {
        lemma_split_append_dot_free(s, t.drop_last());
        let st1 = s + t.drop_last();
        let b = split_dots(st1);
        assert((s + t).drop_last() =~= st1);
        assert((s + t).last() == t.last());
        assert(t.last() != '.');
        assert(b.last() == a.last() + t.drop_last());
        assert(b.last().push(t.last()) =~= a.last() + t);
        assert(split_dots(s + t) == b.update(b.len() - 1, b.last().push(t.last())));
        assert(b.update(b.len() - 1, b.last().push(t.last())) =~= a.update(
            a.len() - 1,
            a.last() + t,
        ));
    }
}

/// Appending a dot closes the last part and opens a new empty one.
proof fn lemma_split_append_dot(s: Seq<char>)
    ensures
        split_dots(s + seq!['.']) == split_dots(s).push(Seq::<char>::empty()),
{
    assert((s + seq!['.']).drop_last() =~= s);
    assert((s + seq!['.']).last() == '.');
}

/// Reading the four octets of an address back together gives the address.
proof fn lemma_octets_reconstruct(a: u32)
    ensures
        quad_val(oct0(a), oct1(a), oct2(a), oct3(a)) == a as nat,
        oct0(a) <= 255,
        oct1(a) <= 255,
        oct2(a) <= 255,
        oct3(a) <= 255,
{
    let n = a as int;
    vstd::arithmetic::div_mod::lemma_fundamental_div_mod(n, 256);
    vstd::arithmetic::div_mod::lemma_fundamental_div_mod(n / 256, 256);
    vstd::arithmetic::div_mod::lemma_fundamental_div_mod(n / 0x10000, 256);
    vstd::arithmetic::div_mod::lemma_div_denominator(n, 256, 256);
    vstd::arithmetic::div_mod::lemma_div_denominator(n, 0x10000, 256);
    lemma_div_is_ordered(n, u32::MAX as int, 0x1000000);
    assert(u32::MAX as int / 0x1000000 == 255);
}

/// Rendering an address and parsing the text back returns the address, so
/// re-rendering the parsed value gives the identical text.
pub proof fn lemma_parse_render_roundtrip(a: u32)
    ensures
        spec_parse_ipv4(spec_render_ipv4(a)) == Some(a),
        spec_render_ipv4(spec_parse_ipv4(spec_render_ipv4(a)).unwrap()) == spec_render_ipv4(a),
{
    lemma_octets_reconstruct(a);
    let r0 = spec_render_octet(oct0(a));
    let r1 = spec_render_octet(oct1(a));
    let r2 = spec_render_octet(oct2(a));
    let r3 = spec_render_octet(oct3(a));
    lemma_render_octet_valid(oct0(a));
    lemma_render_octet_valid(oct1(a));
    lemma_render_octet_valid(oct2(a));
    lemma_render_octet_valid(oct3(a));
    let dot = seq!['.'];
    assert(Seq::<char>::empty() + r0 =~= r0);
    lemma_split_append_dot_free(Seq::<char>::empty(), r0);
    assert(split_dots(Seq::<char>::empty()) == seq![Seq::<char>::empty()]);
    assert(split_dots(r0) =~= seq![r0]);
    lemma_split_append_dot(r0);
    assert(split_dots(r0 + dot) =~= seq![r0, Seq::<char>::empty()]);
    lemma_split_append_dot_free(r0 + dot, r1);
    assert(Seq::<char>::empty() + r1 =~= r1);
    assert(split_dots(r0 + dot + r1) =~= seq![r0, r1]);
    lemma_split_append_dot(r0 + dot + r1);
    assert(split_dots(r0 + dot + r1 + dot) =~= seq![r0, r1, Seq::<char>::empty()]);
    lemma_split_append_dot_free(r0 + dot + r1 + dot, r2);
    assert(Seq::<char>::empty() + r2 =~= r2);
    assert(split_dots(r0 + dot + r1 + dot + r2) =~= seq![r0, r1, r2]);
    lemma_split_append_dot(r0 + dot + r1 + dot + r2);
    assert(split_dots(r0 + dot + r1 + dot + r2 + dot) =~= seq![
        r0,
        r1,
        r2,
        Seq::<char>::empty(),
    ]);
    lemma_split_append_dot_free(r0 + dot + r1 + dot + r2 + dot, r3);
    assert(Seq::<char>::empty() + r3 =~= r3);
    assert(split_dots(spec_render_ipv4(a)) =~= seq![r0, r1, r2, r3]);
}

/// Render an address as dotted-quad text.
pub fn render_ipv4(a: u32) -> (r: String)
    ensures
        r@ == spec_render_ipv4(a),
{
    proof {
        lemma_div_is_ordered(a as int, u32::MAX as int, 0x1000000);
        reveal_strlit(".");
    }
    let mut r = render_octet(a / 0x1000000);
    r.append(".");
    let o1 = render_octet((a / 0x10000) % 256);
    r.append(o1.as_str());
    r.append(".");
    let o2 = render_octet((a / 256) % 256);
    r.append(o2.as_str());
    r.append(".");
    let o3 = render_octet(a % 256);
    r.append(o3.as_str());
    proof {
        assert(r@ =~= spec_render_ipv4(a));
    }
    r
}

} // verus!
