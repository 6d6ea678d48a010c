//! Primitives of the persisted text format: every scalar is written as a
//! short, human-readable token ending in a line break, and strings are
//! length-prefixed so that any character content survives the round trip.
//! Each reader is proved sound (whatever it accepts is exactly the canonical
//! encoding of what it returns) and complete (it accepts every canonical
//! encoding).
use vstd::prelude::*;

use crate::model::{LinkType, NodeType, Sign};
use vstd::string::StrSliceExecFns;

verus! {

/// `p` is an initial segment of `s`.
pub open spec fn prefix_of(p: Seq<char>, s: Seq<char>) -> bool {
    p.len() <= s.len() && s.subrange(0, p.len() as int) == p
}

/// A prefix of a concatenation splits into a prefix and a prefix of the
/// remainder.
pub proof fn lemma_prefix_parts(a: Seq<char>, b: Seq<char>, s: Seq<char>)
    requires
        prefix_of(a + b, s),
    ensures
        prefix_of(a, s),
        prefix_of(b, s.skip(a.len() as int)),
{
    assert(s.subrange(0, a.len() as int) =~= a) by {
        assert forall|k: int| 0 <= k < a.len() implies s[k] == a[k] by {
            assert(s.subrange(0, (a + b).len() as int)[k] == (a + b)[k]);
        }
    }
    assert(s.skip(a.len() as int).subrange(0, b.len() as int) =~= b) by {
        assert forall|k: int| 0 <= k < b.len() implies s[a.len() + k] == b[k] by {
            assert(s.subrange(0, (a + b).len() as int)[a.len() + k] == (a + b)[a.len() + k]);
        }
    }
}

/// Skipping twice is skipping the sum.
pub proof fn lemma_skip_skip(s: Seq<char>, x: int, y: int)
    requires
        0 <= x,
        0 <= y,
        x + y <= s.len(),
    ensures
        s.skip(x).skip(y) == s.skip(x + y),
{
    assert(s.skip(x).skip(y) =~= s.skip(x + y));
}

/// Adjacent subranges concatenate.
pub proof fn lemma_subrange_split(s: Seq<char>, a: int, m: int, b: int)
    requires
        0 <= a <= m <= b <= s.len(),
    ensures
        s.subrange(a, b) == s.subrange(a, m) + s.subrange(m, b),
{
    assert(s.subrange(a, b) =~= s.subrange(a, m) + s.subrange(m, b));
}

/// The decimal digit characters.
pub open spec fn is_digit(c: char) -> bool {
    c == '0' || c == '1' || c == '2' || c == '3' || c == '4' || c == '5' || c == '6' || c == '7'
        || c == '8' || c == '9'
}

/// The character of one decimal digit.
pub open spec fn digit_char(d: nat) -> char {
    if d == 0 {
        '0'
    } else if d == 1 {
        '1'
    } else if d == 2 {
        '2'
    } else if d == 3 {
        '3'
    } else if d == 4 {
        '4'
    } else if d == 5 {
        '5'
    } else if d == 6 {
        '6'
    } else if d == 7 {
        '7'
    } else if d == 8 {
        '8'
    } else {
        '9'
    }
}

/// The value of one decimal digit character.
pub open spec fn digit_val(c: char) -> nat {
    if c == '0' {
        0
    } else if c == '1' {
        1
    } else if c == '2' {
        2
    } else if c == '3' {
        3
    } else if c == '4' {
        4
    } else if c == '5' {
        5
    } else if c == '6' {
        6
    } else if c == '7' {
        7
    } else if c == '8' {
        8
    } else {
        9
    }
}

/// The decimal digits of a number, most significant first.
pub open spec fn dec_digits(v: nat) -> Seq<char>
    decreases v,
{
    if v < 10 {
        seq![digit_char(v)]
    } else {
        dec_digits(v / 10).push(digit_char(v % 10))
    }
}

/// A number token: its decimal digits and a line break.
pub open spec fn enc_nat(v: nat) -> Seq<char> {
    dec_digits(v).push('\n')
}

/// The token of a 64-bit number.
pub open spec fn enc_u64(v: u64) -> Seq<char> {
    enc_nat(v as nat)
}

/// The numeric value of a digit string, most significant first.
pub open spec fn val_of(ds: Seq<char>) -> nat
    decreases ds.len(),
{
    if ds.len() == 0 {
        0
    } else {
        val_of(ds.drop_last()) * 10 + digit_val(ds.last())
    }
}

/// Shape of a decimal token: digit characters only, no leading zero unless
/// the token is exactly "0".
pub proof fn lemma_dec_digits_shape(v: nat)
    ensures
        dec_digits(v).len() >= 1,
        forall|k: int| 0 <= k < dec_digits(v).len() ==> is_digit(#[trigger] dec_digits(v)[k]),
        v >= 1 ==> dec_digits(v)[0] != '0',
        v < 10 ==> dec_digits(v).len() == 1,
    decreases v,
{
    if v >= 10 {
        lemma_dec_digits_shape(v / 10);
        let d = dec_digits(v);
        let h = dec_digits(v / 10);
        assert forall|k: int| 0 <= k < d.len() implies is_digit(#[trigger] d[k]) by {
            if k < h.len() {
                assert(d[k] == h[k]);
            }
        }
        assert(d[0] == h[0]);
    }
}

/// The digits of a number evaluate back to it.
pub proof fn lemma_val_of_dec_digits(v: nat)
    ensures
        val_of(dec_digits(v)) == v,
    decreases v,
{
    if v < 10 {
        assert(dec_digits(v).drop_last() =~= Seq::<char>::empty());
        assert(dec_digits(v).last() == digit_char(v));
        assert(digit_val(digit_char(v)) == v);
        assert(val_of(Seq::<char>::empty()) == 0);
        assert(val_of(dec_digits(v)) == val_of(dec_digits(v).drop_last()) * 10 + digit_val(
            dec_digits(v).last(),
        ));
    } else {
        lemma_val_of_dec_digits(v / 10);
        assert(dec_digits(v).drop_last() =~= dec_digits(v / 10));
        assert(dec_digits(v).last() == digit_char(v % 10));
        assert(digit_val(digit_char(v % 10)) == v % 10);
        assert(val_of(dec_digits(v)) == val_of(dec_digits(v).drop_last()) * 10 + digit_val(
            dec_digits(v).last(),
        ));
        assert(v / 10 * 10 + v % 10 == v) by (nonlinear_arith);
    }
}

/// A digit string with no leading zero evaluates to a positive number.
pub proof fn lemma_val_of_positive(ds: Seq<char>)
    requires
        ds.len() >= 1,
        forall|k: int| 0 <= k < ds.len() ==> is_digit(#[trigger] ds[k]),
        ds[0] != '0',
    ensures
        val_of(ds) >= 1,
    decreases ds.len(),
{
    if ds.len() == 1 {
        assert(digit_val(ds[0]) >= 1);
    } else {
        let init = ds.drop_last();
        assert(init[0] == ds[0]);
        lemma_val_of_positive(init);
    }
}

/// Canonical digit strings are uniquely determined by their value.
pub proof fn lemma_digits_canonical(ds: Seq<char>)
    requires
        ds.len() >= 1,
        forall|k: int| 0 <= k < ds.len() ==> is_digit(#[trigger] ds[k]),
        ds[0] != '0' || ds.len() == 1,
    ensures
        dec_digits(val_of(ds)) == ds,
    decreases ds.len(),
{
    if ds.len() == 1 {
        assert(ds.drop_last() =~= Seq::<char>::empty());
        assert(val_of(Seq::<char>::empty()) == 0);
        assert(ds.last() == ds[0]);
        assert(val_of(ds) == val_of(ds.drop_last()) * 10 + digit_val(ds.last()));
        assert(val_of(ds) == digit_val(ds[0]));
        assert(digit_char(digit_val(ds[0])) == ds[0]);
        assert(dec_digits(val_of(ds)) =~= ds);
    } else {
        let init = ds.drop_last();
        let d = digit_val(ds.last());
        assert(init[0] == ds[0]);
        lemma_val_of_positive(init);
        lemma_digits_canonical(init);
        let v = val_of(ds);
        assert(v == val_of(init) * 10 + d);
        assert(v >= 10);
        assert(v / 10 == val_of(init)) by (nonlinear_arith)
            requires
                v == val_of(init) * 10 + d,
                d < 10,
        ;
        assert(v % 10 == d) by (nonlinear_arith)
            requires
                v == val_of(init) * 10 + d,
                d < 10,
        ;
        assert(digit_char(digit_val(ds.last())) == ds.last());
        assert(dec_digits(v) =~= ds) by {
            assert(dec_digits(v) == dec_digits(v / 10).push(digit_char(v % 10)));
            assert(dec_digits(v / 10) == init);
            assert(init.push(ds.last()) =~= ds);
        }
    }
}

/// Every prefix of a number's digits evaluates to at most the number.
pub proof fn lemma_val_of_take(v: nat, k: int)
    requires
        0 <= k <= dec_digits(v).len(),
    ensures
        val_of(dec_digits(v).take(k)) <= v,
    decreases v,
{
    if v < 10 {
        if k == 0 {
            assert(dec_digits(v).take(0) =~= Seq::<char>::empty());
        } else {
            assert(dec_digits(v).take(k) =~= dec_digits(v));
            lemma_val_of_dec_digits(v);
        }
    } else {
        let d = dec_digits(v);
        let h = dec_digits(v / 10);
        if k <= h.len() {
            assert(d.take(k) =~= h.take(k));
            lemma_val_of_take(v / 10, k);
            assert(val_of(h.take(k)) <= v / 10);
        } else {
            assert(d.take(k) =~= d);
            lemma_val_of_dec_digits(v);
        }
    }
}

/// The digit of one numeral character, if it is one.
pub fn digit_of(c: char) -> (r: Option<u64>)
    ensures
        (r is Some) == is_digit(c),
        r matches Some(d) ==> d == digit_val(c) && d < 10,
{
    match c {
        '0' => Some(0),
        '1' => Some(1),
        '2' => Some(2),
        '3' => Some(3),
        '4' => Some(4),
        '5' => Some(5),
        '6' => Some(6),
        '7' => Some(7),
        '8' => Some(8),
        '9' => Some(9),
        _ => None,
    }
}

/// The numeral character of one digit.
pub fn char_of_digit(d: u64) -> (r: char)
    requires
        d < 10,
    ensures
        r == digit_char(d as nat),
{
    match d {
        0 => '0',
        1 => '1',
        2 => '2',
        3 => '3',
        4 => '4',
        5 => '5',
        6 => '6',
        7 => '7',
        8 => '8',
        _ => '9',
    }
}

/// Appends the decimal digits of `v`.
fn write_digits(out: &mut Vec<char>, v: u64)
    ensures
        final(out)@ == old(out)@ + dec_digits(v as nat),
    decreases v,
{
    if v < 10 {
        out.push(char_of_digit(v));
        proof {
            assert(out@ =~= old(out)@ + dec_digits(v as nat));
        }
    } else {
        write_digits(out, v / 10);
        out.push(char_of_digit(v % 10));
        proof {
            assert(out@ =~= old(out)@ + dec_digits(v as nat));
        }
    }
}

/// Appends the token of a 64-bit number.
pub fn write_u64(out: &mut Vec<char>, v: u64)
    ensures
        final(out)@ == old(out)@ + enc_u64(v),
{
    write_digits(out, v);
    out.push('\n');
    proof {
        assert(out@ =~= old(out)@ + enc_u64(v));
    }
}

/// Reads one number token at `pos`: a canonical decimal numeral (digits
/// only, no leading zero) terminated by a line break, fitting in 64 bits.
pub fn read_u64(s: &Vec<char>, pos: usize) -> (r: Option<(u64, usize)>)
    requires
        pos <= s@.len(),
    ensures
        r matches Some(p) ==> pos < p.1 <= s@.len() && s@.subrange(pos as int, p.1 as int)
            == enc_u64(p.0),
        forall|v: u64| #[trigger]
            prefix_of(enc_u64(v), s@.skip(pos as int)) ==> r == Some::<(u64, usize)>(
                (v, (pos + enc_u64(v).len()) as usize),
            ),
{
    let ghost suffix = s@.skip(pos as int);
    proof {
        assert forall|v: u64| #[trigger] prefix_of(enc_u64(v), suffix) implies {
            &&& pos + enc_u64(v).len() <= s@.len()
            &&& (forall|k: int|
                0 <= k < dec_digits(v as nat).len() ==> s@[pos + k] == dec_digits(v as nat)[k])
            &&& s@[pos + dec_digits(v as nat).len()] == '\n'
        } by {
            let e = enc_u64(v);
            let dd = dec_digits(v as nat);
            assert forall|k: int| 0 <= k < e.len() implies s@[pos + k] == e[k] by {
                assert(suffix.subrange(0, e.len() as int)[k] == e[k]);
            }
            assert(e.len() == dd.len() + 1);
            assert forall|k: int| 0 <= k < dd.len() implies s@[pos + k] == dd[k] by {
                assert(s@[pos + k] == e[k]);
                assert(e[k] == dd[k]);
            }
            assert(s@[pos + dd.len()] == e[dd.len() as int]);
            assert(e[dd.len() as int] == '\n');
        }
    }
    let mut i: usize = pos;
    let mut acc: u64 = 0;
    loop
        invariant
            pos <= i <= s@.len(),
            suffix == s@.skip(pos as int),
            forall|k: int| pos <= k < i ==> is_digit(#[trigger] s@[k]),
            acc == val_of(s@.subrange(pos as int, i as int)),
            i > pos ==> (s@[pos as int] != '0' || i == pos + 1),
            forall|v: u64| #[trigger] prefix_of(enc_u64(v), suffix) ==> {
                &&& pos + enc_u64(v).len() <= s@.len()
                &&& (forall|k: int|
                    0 <= k < dec_digits(v as nat).len() ==> s@[pos + k] == dec_digits(v as nat)[k])
                &&& s@[pos + dec_digits(v as nat).len()] == '\n'
            },
        decreases s@.len() - i,
    {
        // when a canonical token starts here, the scan so far sits inside
        // its digits
        proof {
            assert forall|v: u64| #[trigger] prefix_of(enc_u64(v), suffix) implies i <= pos
                + dec_digits(v as nat).len() by {
                lemma_dec_digits_shape(v as nat);
                if i > pos + dec_digits(v as nat).len() {
                    assert(is_digit(s@[pos + dec_digits(v as nat).len()]));
                }
            }
        }
        if i == s.len() {
            // the input ends inside the numeral: no canonical token starts
            // at `pos`
            proof {
                assert forall|v: u64| !(#[trigger] prefix_of(enc_u64(v), suffix)) by {
                    if prefix_of(enc_u64(v), suffix) {
                        lemma_dec_digits_shape(v as nat);
                    }
                }
            }
            return None;
        }
        let c = s[i];
        if c == '\n' {
            if i == pos {
                // empty numeral
                proof {
                    assert forall|v: u64| !(#[trigger] prefix_of(enc_u64(v), suffix)) by {
                        if prefix_of(enc_u64(v), suffix) {
                            lemma_dec_digits_shape(v as nat);
                            assert(s@[pos as int] == dec_digits(v as nat)[0]);
                        }
                    }
                }
                return None;
            }
            proof {
                let ds = s@.subrange(pos as int, i as int);
                assert(ds[0] == s@[pos as int]);
                lemma_digits_canonical(ds);
                assert forall|v: u64| #[trigger] prefix_of(enc_u64(v), suffix) implies v == acc
                    && pos + enc_u64(v).len() == i + 1 by {
                    lemma_dec_digits_shape(v as nat);
                    let dl = dec_digits(v as nat).len();
                    // the digits of v reach exactly to i
                    if pos + dl < i {
                        assert(is_digit(s@[pos + dl]));
                        assert(s@[pos + dl] == '\n');
                    }
                    if pos + dl > i {
                        assert(s@[i as int] == dec_digits(v as nat)[i - pos]);
                        assert(is_digit(s@[i as int]));
                    }
                    assert(pos + dl == i);
                    assert(ds =~= dec_digits(v as nat));
                    lemma_val_of_dec_digits(v as nat);
                }
            }
            return Some((acc, i + 1));
        }
        let d = match digit_of(c) {
            Some(d) => d,
            None => {
                // neither digit nor line break: malformed
                proof {
                    assert forall|v: u64| !(#[trigger] prefix_of(enc_u64(v), suffix)) by {
                        if prefix_of(enc_u64(v), suffix) {
                            lemma_dec_digits_shape(v as nat);
                            let dl = dec_digits(v as nat).len();
                            if i < pos + dl {
                                assert(s@[i as int] == dec_digits(v as nat)[i - pos]);
                                assert(is_digit(s@[i as int]));
                            } else {
                                assert(s@[i as int] == '\n');
                            }
                        }
                    }
                }
                return None;
            },
        };
        if i > pos && s[pos] == '0' {
            // a leading zero is not canonical
            proof {
                assert forall|v: u64| !(#[trigger] prefix_of(enc_u64(v), suffix)) by {
                    if prefix_of(enc_u64(v), suffix) {
                        lemma_dec_digits_shape(v as nat);
                        let dd = dec_digits(v as nat);
                        assert(s@[pos as int] == dd[0]);
                        assert(v as nat == 0);
                        assert(dd.len() == 1);
                        assert(s@[pos + 1] == '\n');
                        assert(is_digit(s@[i as int]));
                    }
                }
            }
            return None;
        }
        let ghost pre_acc = acc;
        let t = match acc.checked_mul(10) {
            Some(t) => t,
            None => {
                proof {
                    overflow_contradiction(s@, pos as int, i as int, suffix, pre_acc, d);
                }
                return None;
            },
        };
        acc = match t.checked_add(d) {
            Some(a) => a,
            None => {
                proof {
                    overflow_contradiction(s@, pos as int, i as int, suffix, pre_acc, d);
                }
                return None;
            },
        };
        i = i + 1;
        proof {
            let ds = s@.subrange(pos as int, i as int);
            assert(ds.drop_last() =~= s@.subrange(pos as int, i - 1));
            assert(ds.last() == s@[i - 1]);
            assert(acc == val_of(ds));
        }
    }
}

/// A two-character prefix pins the two characters at the suffix's start.
pub proof fn lemma_two_char_prefix(s: Seq<char>, pos: int, a: char, b: char)
    requires
        0 <= pos <= s.len(),
        prefix_of(seq![a, b], s.skip(pos)),
    ensures
        pos + 2 <= s.len(),
        s[pos] == a,
        s[pos + 1] == b,
{
    let suffix = s.skip(pos);
    assert(suffix.subrange(0, 2)[0] == a);
    assert(suffix.subrange(0, 2)[1] == b);
}

/// The tag character of a polarity.
pub open spec fn sign_char(v: Sign) -> char {
    match v {
        Sign::Negative => 'N',
        Sign::Neutral => 'Z',
        Sign::Positive => 'P',
    }
}

/// The token of a polarity.
pub open spec fn enc_sign(v: Sign) -> Seq<char> {
    seq![sign_char(v), '\n']
}

/// The tag character of a node kind.
pub open spec fn node_type_char(v: NodeType) -> char {
    match v {
        NodeType::Default => 'D',
        NodeType::Interaction => 'I',
    }
}

/// The token of a node kind.
pub open spec fn enc_node_type(v: NodeType) -> Seq<char> {
    seq![node_type_char(v), '\n']
}

/// The tag character of a link kind.
pub open spec fn link_type_char(v: LinkType) -> char {
    match v {
        LinkType::Infection => 'i',
        LinkType::Differentiation => 'd',
        LinkType::Production => 'p',
        LinkType::Consume => 'c',
        LinkType::Replication => 'r',
        LinkType::Migration => 'm',
        LinkType::Killing => 'k',
        LinkType::Phagocytosis => 'g',
        LinkType::Apoptosis => 'a',
        LinkType::Decay => 'y',
        LinkType::PositiveInteraction => 'P',
        LinkType::NegativeInteraction => 'N',
        LinkType::Inhibition => 'h',
        LinkType::Unspecified => 'u',
    }
}

/// The token of a link kind.
pub open spec fn enc_link_type(v: LinkType) -> Seq<char> {
    seq![link_type_char(v), '\n']
}

/// The tag character of a truth value.
pub open spec fn bool_char(v: bool) -> char {
    if v {
        '1'
    } else {
        '0'
    }
}

/// The token of a truth value.
pub open spec fn enc_bool(v: bool) -> Seq<char> {
    seq![bool_char(v), '\n']
}

/// Appends the token of a polarity.
pub fn write_sign(out: &mut Vec<char>, v: Sign)
    ensures
        final(out)@ == old(out)@ + enc_sign(v),
{
    let c = match v {
        Sign::Negative => 'N',
        Sign::Neutral => 'Z',
        Sign::Positive => 'P',
    };
    out.push(c);
    out.push('\n');
    proof {
        assert(out@ =~= old(out)@ + enc_sign(v));
    }
}

/// Appends the token of a node kind.
pub fn write_node_type(out: &mut Vec<char>, v: NodeType)
    ensures
        final(out)@ == old(out)@ + enc_node_type(v),
{
    let c = match v {
        NodeType::Default => 'D',
        NodeType::Interaction => 'I',
    };
    out.push(c);
    out.push('\n');
    proof {
        assert(out@ =~= old(out)@ + enc_node_type(v));
    }
}

/// Appends the token of a link kind.
pub fn write_link_type(out: &mut Vec<char>, v: LinkType)
    ensures
        final(out)@ == old(out)@ + enc_link_type(v),
{
    let c = match v {
        LinkType::Infection => 'i',
        LinkType::Differentiation => 'd',
        LinkType::Production => 'p',
        LinkType::Consume => 'c',
        LinkType::Replication => 'r',
        LinkType::Migration => 'm',
        LinkType::Killing => 'k',
        LinkType::Phagocytosis => 'g',
        LinkType::Apoptosis => 'a',
        LinkType::Decay => 'y',
        LinkType::PositiveInteraction => 'P',
        LinkType::NegativeInteraction => 'N',
        LinkType::Inhibition => 'h',
        LinkType::Unspecified => 'u',
    };
    out.push(c);
    out.push('\n');
    proof {
        assert(out@ =~= old(out)@ + enc_link_type(v));
    }
}

/// Appends the token of a truth value.
pub fn write_bool(out: &mut Vec<char>, v: bool)
    ensures
        final(out)@ == old(out)@ + enc_bool(v),
{
    let c = if v {
        '1'
    } else {
        '0'
    };
    out.push(c);
    out.push('\n');
    proof {
        assert(out@ =~= old(out)@ + enc_bool(v));
    }
}

/// Reads a polarity token.
pub fn read_sign(s: &Vec<char>, pos: usize) -> (r: Option<(Sign, usize)>)
    requires
        pos <= s@.len(),
    ensures
        r matches Some(p) ==> pos + 2 == p.1 && p.1 <= s@.len() && s@.subrange(
            pos as int,
            p.1 as int,
        ) == enc_sign(p.0),
        forall|v: Sign| #[trigger]
            prefix_of(enc_sign(v), s@.skip(pos as int)) ==> r == Some::<(Sign, usize)>(
                (v, (pos + 2) as usize),
            ),
    {
    proof {
        assert forall|v: Sign| #[trigger] prefix_of(enc_sign(v), s@.skip(pos as int)) implies pos
            + 2 <= s@.len() && s@[pos as int] == sign_char(v) && s@[pos + 1] == '\n' by {
            lemma_two_char_prefix(s@, pos as int, sign_char(v), '\n');
        }
    }
    if pos >= s.len() || pos + 1 >= s.len() {
        return None;
    }
    if s[pos + 1] != '\n' {
        return None;
    }
    let c = s[pos];
    let v = match c {
        'N' => Sign::Negative,
        'Z' => Sign::Neutral,
        'P' => Sign::Positive,
        _ => {
            return None;
        },
    };
    proof {
        assert(s@.subrange(pos as int, pos + 2) =~= enc_sign(v));
    }
    Some((v, pos + 2))
}

/// Reads a node kind token.
pub fn read_node_type(s: &Vec<char>, pos: usize) -> (r: Option<(NodeType, usize)>)
    requires
        pos <= s@.len(),
    ensures
        r matches Some(p) ==> pos + 2 == p.1 && p.1 <= s@.len() && s@.subrange(
            pos as int,
            p.1 as int,
        ) == enc_node_type(p.0),
        forall|v: NodeType| #[trigger]
            prefix_of(enc_node_type(v), s@.skip(pos as int)) ==> r == Some::<(NodeType, usize)>(
                (v, (pos + 2) as usize),
            ),
    {
    proof {
        assert forall|v: NodeType| #[trigger]
            prefix_of(enc_node_type(v), s@.skip(pos as int)) implies pos + 2 <= s@.len()
            && s@[pos as int] == node_type_char(v) && s@[pos + 1] == '\n' by {
            lemma_two_char_prefix(s@, pos as int, node_type_char(v), '\n');
        }
    }
    if pos >= s.len() || pos + 1 >= s.len() {
        return None;
    }
    if s[pos + 1] != '\n' {
        return None;
    }
    let c = s[pos];
    let v = match c {
        'D' => NodeType::Default,
        'I' => NodeType::Interaction,
        _ => {
            return None;
        },
    };
    proof {
        assert(s@.subrange(pos as int, pos + 2) =~= enc_node_type(v));
    }
    Some((v, pos + 2))
}

/// Reads a link kind token.
pub fn read_link_type(s: &Vec<char>, pos: usize) -> (r: Option<(LinkType, usize)>)
    requires
        pos <= s@.len(),
    ensures
        r matches Some(p) ==> pos + 2 == p.1 && p.1 <= s@.len() && s@.subrange(
            pos as int,
            p.1 as int,
        ) == enc_link_type(p.0),
        forall|v: LinkType| #[trigger]
            prefix_of(enc_link_type(v), s@.skip(pos as int)) ==> r == Some::<(LinkType, usize)>(
                (v, (pos + 2) as usize),
            ),
    {
    proof {
        assert forall|v: LinkType| #[trigger]
            prefix_of(enc_link_type(v), s@.skip(pos as int)) implies pos + 2 <= s@.len()
            && s@[pos as int] == link_type_char(v) && s@[pos + 1] == '\n' by {
            lemma_two_char_prefix(s@, pos as int, link_type_char(v), '\n');
        }
    }
    if pos >= s.len() || pos + 1 >= s.len() {
        return None;
    }
    if s[pos + 1] != '\n' {
        return None;
    }
    let c = s[pos];
    let v = match c {
        'i' => LinkType::Infection,
        'd' => LinkType::Differentiation,
        'p' => LinkType::Production,
        'c' => LinkType::Consume,
        'r' => LinkType::Replication,
        'm' => LinkType::Migration,
        'k' => LinkType::Killing,
        'g' => LinkType::Phagocytosis,
        'a' => LinkType::Apoptosis,
        'y' => LinkType::Decay,
        'P' => LinkType::PositiveInteraction,
        'N' => LinkType::NegativeInteraction,
        'h' => LinkType::Inhibition,
        'u' => LinkType::Unspecified,
        _ => {
            return None;
        },
    };
    proof {
        assert(s@.subrange(pos as int, pos + 2) =~= enc_link_type(v));
    }
    Some((v, pos + 2))
}

/// Reads a truth value token.
pub fn read_bool(s: &Vec<char>, pos: usize) -> (r: Option<(bool, usize)>)
    requires
        pos <= s@.len(),
    ensures
        r matches Some(p) ==> pos + 2 == p.1 && p.1 <= s@.len() && s@.subrange(
            pos as int,
            p.1 as int,
        ) == enc_bool(p.0),
        forall|v: bool| #[trigger]
            prefix_of(enc_bool(v), s@.skip(pos as int)) ==> r == Some::<(bool, usize)>(
                (v, (pos + 2) as usize),
            ),
    {
    proof {
        assert forall|v: bool| #[trigger] prefix_of(enc_bool(v), s@.skip(pos as int)) implies pos
            + 2 <= s@.len() && s@[pos as int] == bool_char(v) && s@[pos + 1] == '\n' by {
            lemma_two_char_prefix(s@, pos as int, bool_char(v), '\n');
        }
    }
    if pos >= s.len() || pos + 1 >= s.len() {
        return None;
    }
    if s[pos + 1] != '\n' {
        return None;
    }
    let c = s[pos];
    let v = match c {
        '0' => false,
        '1' => true,
        _ => {
            return None;
        },
    };
    proof {
        assert(s@.subrange(pos as int, pos + 2) =~= enc_bool(v));
    }
    Some((v, pos + 2))
}

/// The token of a text value: its character count, the characters
/// themselves, and a closing line break. Length-prefixing lets any content
/// round-trip without an escaping scheme.
pub open spec fn enc_str(t: Seq<char>) -> Seq<char> {
    enc_nat(t.len()) + t + seq!['\n']
}

/// The characters of a text value, in order.
pub fn str_chars(s: &str) -> (r: Vec<char>)
    ensures
        r@ == s@,
{
    let n = s.unicode_len();
    let mut r: Vec<char> = Vec::new();
    let mut i: usize = 0;
    while i < n
        invariant
            i <= n,
            n == s@.len(),
            r@ =~= s@.take(i as int),
        decreases n - i,
    {
        r.push(s.get_char(i));
        i = i + 1;
    }
    proof {
        assert(r@ =~= s@);
    }
    r
}

/// Relies on `String`'s `FromIterator` over `char`: collecting an iterator
/// of characters yields the string made of exactly those characters.
#[verifier::external_body]
pub(crate) fn string_from_chars(v: &Vec<char>) -> (r: String)
    ensures
        r@ == v@,
{
    v.iter().collect()
}

/// Appends the token of a text value.
pub fn write_str(out: &mut Vec<char>, s: &str)
    ensures
        final(out)@ == old(out)@ + enc_str(s@),
        s@.len() <= u64::MAX,
{
    let n = s.unicode_len();
    proof {
        assert(s@.len() <= u64::MAX);
    }
    write_u64(out, n as u64);
    let ghost base = out@;
    let mut i: usize = 0;
    while i < n
        invariant
            i <= n,
            n == s@.len(),
            out@ =~= base + s@.take(i as int),
        decreases n - i,
    {
        out.push(s.get_char(i));
        i = i + 1;
    }
    out.push('\n');
    proof {
        assert(out@ =~= old(out)@ + enc_str(s@));
    }
}

/// Reads a text value token.
pub fn read_str(s: &Vec<char>, pos: usize) -> (r: Option<(String, usize)>)
    requires
        pos <= s@.len(),
    ensures
        r matches Some(p) ==> pos < p.1 <= s@.len() && s@.subrange(pos as int, p.1 as int)
            == enc_str(p.0@),
        forall|t: Seq<char>|
            t.len() <= u64::MAX && #[trigger] prefix_of(enc_str(t), s@.skip(pos as int)) ==> (
            r matches Some(p) && p.0@ == t && p.1 == pos + enc_str(t).len()),
    {
    let ghost suffix = s@.skip(pos as int);
    proof {
        assert forall|t: Seq<char>|
            t.len() <= u64::MAX && #[trigger] prefix_of(enc_str(t), suffix) implies {
            &&& prefix_of(enc_u64((t.len() as u64)), suffix)
            &&& prefix_of(t + seq!['\n'], s@.skip(pos + enc_nat(t.len()).len()))
        } by {
            assert(enc_str(t) =~= enc_nat(t.len()) + (t + seq!['\n']));
            lemma_prefix_parts(enc_nat(t.len()), t + seq!['\n'], suffix);
            assert((t.len() as u64) as nat == t.len());
            lemma_skip_skip(s@, pos as int, enc_nat(t.len()).len() as int);
        }
    }
    let (len64, q) = match read_u64(s, pos) {
        Some(p) => p,
        None => {
            return None;
        },
    };
    // the characters themselves plus the closing break must still be there
    let rem = s.len() - q;
    if (rem as u64) < len64 {
        proof {
            str_len_contradiction(s@, pos as int, suffix, len64, q as int);
        }
        return None;
    }
    let l = len64 as usize;
    if rem == l {
        proof {
            str_len_contradiction(s@, pos as int, suffix, len64, q as int);
        }
        return None;
    }
    if s[q + l] != '\n' {
        proof {
            str_len_contradiction(s@, pos as int, suffix, len64, q as int);
        }
        return None;
    }
    let mut chars: Vec<char> = Vec::new();
    let mut i: usize = 0;
    while i < l
        invariant
            i <= l,
            q + l < s@.len(),
            s@.len() <= usize::MAX,
            chars@ =~= s@.subrange(q as int, q + i),
        decreases l - i,
    {
        chars.push(s[q + i]);
        proof {
            assert(chars@ =~= s@.subrange(q as int, q + i + 1));
        }
        i = i + 1;
    }
    let w = string_from_chars(&chars);
    proof {
        let t0 = s@.subrange(q as int, q + l);
        assert(w@ == t0);
        assert(t0.len() == len64 as nat);
        assert(s@.subrange(pos as int, q + l + 1) =~= enc_str(t0)) by {
            assert(s@.subrange(pos as int, q as int) == enc_u64(len64));
            lemma_subrange_split(s@, pos as int, q as int, q + l + 1);
            lemma_subrange_split(s@, q as int, q + l, q + l + 1);
            assert(s@.subrange(q + l, q + l + 1) =~= seq!['\n']);
        }
        assert forall|t: Seq<char>|
            t.len() <= u64::MAX && #[trigger] prefix_of(enc_str(t), suffix) implies w@ == t && q + l
            + 1 == pos + enc_str(t).len() by {
            assert(prefix_of(enc_u64((t.len() as u64)), suffix));
            assert(len64 == t.len() as u64);
            assert(q == pos + enc_u64((t.len() as u64)).len());
            let tail = s@.skip(pos + enc_nat(t.len()).len());
            assert(prefix_of(t + seq!['\n'], tail));
            assert forall|k: int| 0 <= k < t.len() implies s@[q + k] == t[k] by {
                assert(tail.subrange(0, (t + seq!['\n']).len() as int)[k] == (t + seq!['\n'])[k]);
            }
            assert(t0 =~= t);
        }
    }
    Some((w, q + l + 1))
}

/// When the input after a length token is too short for that many
/// characters and a closing break, no canonical text token can start at
/// `pos`.
proof fn str_len_contradiction(s: Seq<char>, pos: int, suffix: Seq<char>, len64: u64, q: int)
    requires
        0 <= pos <= s.len(),
        suffix == s.skip(pos),
        pos < q <= s.len(),
        s.subrange(pos, q) == enc_u64(len64),
        !(q + len64 < s.len() && s[q + len64] == '\n'),
        forall|t: Seq<char>|
            t.len() <= u64::MAX && #[trigger] prefix_of(enc_str(t), suffix) ==> prefix_of(
                enc_u64((t.len() as u64)),
                suffix,
            ) && prefix_of(t + seq!['\n'], s.skip(pos + enc_nat(t.len()).len() as int)),
    ensures
        forall|t: Seq<char>| !(t.len() <= u64::MAX && #[trigger] prefix_of(enc_str(t), suffix)),
{
    assert forall|t: Seq<char>| !(t.len() <= u64::MAX && #[trigger] prefix_of(enc_str(t), suffix))
        by {
        if t.len() <= u64::MAX && prefix_of(enc_str(t), suffix) {
            assert(prefix_of(enc_u64((t.len() as u64)), suffix));
            // the length token read is the one encoded
            let e = enc_u64((t.len() as u64));
            assert(s.subrange(pos, pos + e.len()) =~= e) by {
                assert forall|k: int| 0 <= k < e.len() implies s[pos + k] == e[k] by {
                    assert(suffix.subrange(0, e.len() as int)[k] == e[k]);
                }
            }
            lemma_enc_u64_unambiguous(s, pos, q, len64, (t.len() as u64));
            let tail = s.skip(pos + enc_nat(t.len()).len());
            assert(prefix_of(t + seq!['\n'], tail));
            assert(tail[t.len() as int] == '\n') by {
                assert(tail.subrange(0, (t + seq!['\n']).len() as int)[t.len() as int] == (t
                    + seq!['\n'])[t.len() as int]);
            }
            assert(s[q + len64] == '\n');
            assert(q + len64 < s.len());
        }
    }
}

/// Two number tokens at the same position are the same token.
proof fn lemma_enc_u64_unambiguous(s: Seq<char>, pos: int, q: int, a: u64, b: u64)
    requires
        0 <= pos <= q <= s.len(),
        s.subrange(pos, q) == enc_u64(a),
        pos + enc_u64(b).len() <= s.len(),
        s.subrange(pos, pos + enc_u64(b).len()) == enc_u64(b),
    ensures
        a == b,
        q == pos + enc_u64(b).len(),
{
    lemma_dec_digits_shape(a as nat);
    lemma_dec_digits_shape(b as nat);
    let da = dec_digits(a as nat);
    let db = dec_digits(b as nat);
    assert(q - pos == enc_u64(a).len()) by {
        assert(s.subrange(pos, q).len() == enc_u64(a).len());
    }
    // the first line break ends both tokens at the same place
    assert forall|k: int| 0 <= k < da.len() implies s[pos + k] == da[k] && is_digit(
        s[pos + k],
    ) by {
        assert(s.subrange(pos, q)[k] == enc_u64(a)[k]);
    }
    assert(s[pos + da.len()] == '\n') by {
        assert(s.subrange(pos, q)[da.len() as int] == enc_u64(a)[da.len() as int]);
    }
    assert forall|k: int| 0 <= k < db.len() implies s[pos + k] == db[k] && is_digit(
        s[pos + k],
    ) by {
        assert(s.subrange(pos, pos + enc_u64(b).len())[k] == enc_u64(b)[k]);
    }
    assert(s[pos + db.len()] == '\n') by {
        assert(s.subrange(pos, pos + enc_u64(b).len())[db.len() as int] == enc_u64(
            b,
        )[db.len() as int]);
    }
    if da.len() < db.len() {
        assert(s[pos + da.len()] == db[da.len() as int]);
        assert(is_digit(db[da.len() as int]));
        assert(false);
    } else if db.len() < da.len() {
        assert(s[pos + db.len()] == da[db.len() as int]);
        assert(is_digit(da[db.len() as int]));
        assert(false);
    }
    assert(da =~= db);
    lemma_val_of_dec_digits(a as nat);
    lemma_val_of_dec_digits(b as nat);
    assert(q - pos == enc_u64(a).len()) by {
        assert(s.subrange(pos, q).len() == enc_u64(a).len());
    }
}

/// At an overflowing scan position no canonical 64-bit token can start at
/// `pos`: the value read so far is bounded by the token's value.
proof fn overflow_contradiction(
    s: Seq<char>,
    pos: int,
    i: int,
    suffix: Seq<char>,
    acc: u64,
    d: u64,
)
    requires
        0 <= pos <= i < s.len(),
        suffix == s.skip(pos),
        acc == val_of(s.subrange(pos, i)),
        d == digit_val(s[i]),
        is_digit(s[i]),
        forall|k: int| pos <= k < i ==> is_digit(#[trigger] s[k]),
        acc * 10 + d > u64::MAX,
        forall|v: u64| #[trigger] prefix_of(enc_u64(v), suffix) ==> {
            &&& pos + enc_u64(v).len() <= s.len()
            &&& (forall|k: int|
                0 <= k < dec_digits(v as nat).len() ==> s[pos + k] == dec_digits(v as nat)[k])
            &&& s[pos + dec_digits(v as nat).len()] == '\n'
        },
    ensures
        forall|v: u64| !(#[trigger] prefix_of(enc_u64(v), suffix)),
{
    assert forall|v: u64| !(#[trigger] prefix_of(enc_u64(v), suffix)) by {
        if prefix_of(enc_u64(v), suffix) {
            lemma_dec_digits_shape(v as nat);
            let dd = dec_digits(v as nat);
            // the scan is still inside the digits of v
            if i + 1 > pos + dd.len() {
                if i > pos + dd.len() {
                    assert(is_digit(s[pos + dd.len()]));
                }
                assert(s[i] == '\n');
            }
            assert(i + 1 <= pos + dd.len());
            assert(s.subrange(pos, i + 1) =~= dd.take(i + 1 - pos));
            lemma_val_of_take(v as nat, i + 1 - pos);
            assert(s.subrange(pos, i + 1).drop_last() =~= s.subrange(pos, i));
            assert(s.subrange(pos, i + 1).last() == s[i]);
            assert(val_of(s.subrange(pos, i + 1)) == acc * 10 + d);
            assert(acc * 10 + d <= v as nat);
        }
    }
}

} // verus!
