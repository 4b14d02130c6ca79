//! The backup codec: the whole graph as one structured text document, with
//! a parser proved to invert the serializer.
//!
//! Numbers are decimal; text is length-prefixed (`5:hello`), so no content
//! ever needs escaping; records are space separated. The parser accepts
//! exactly the canonical renderings, reads back the same values, and
//! rejects everything else.

use vstd::prelude::*;
use vstd::string::StringExecFns;
use crate::graph::{GraphModel, LoomGraph};
use crate::node::{Edge, Node, NodeMetadata, NodeModel};
use crate::numfmt::{dec_digits, dec_signed, digit_char};
use crate::text::str_to_chars;

verus! {

/// Whether a character is a decimal digit.
pub open spec fn is_digit(c: char) -> bool {
    48 <= c as u32 <= 57
}

/// The value of a digit character.
pub open spec fn digit_val(c: char) -> int {
    c as u32 - 48
}

/// The first position at or after `i` that does not hold a digit.
pub open spec fn digit_run_end(s: Seq<char>, i: int) -> int
    decreases s.len() - i when 0 <= i <= s.len()
{
    if 0 <= i < s.len() && is_digit(s[i]) {
        digit_run_end(s, i + 1)
    } else {
        i
    }
}

/// The value of the digits `s[i .. j)`.
pub open spec fn num_value(s: Seq<char>, i: int, j: int) -> int
    decreases j - i,
{
    if j <= i {
        0
    } else {
        num_value(s, i, j - 1) * 10 + digit_val(s[j - 1])
    }
}

/// Parses a canonical decimal number: a non-empty digit run without leading
/// zeros whose value is representable in 128 bits.
pub open spec fn parse_num(s: Seq<char>, i: int) -> Option<(int, int)> {
    let j = digit_run_end(s, i);
    if j == i {
        None
    } else if s[i] == '0' && j > i + 1 {
        None
    } else if num_value(s, i, j) > u128::MAX as int {
        None
    } else {
        Some((num_value(s, i, j), j))
    }
}

/// Parses a signed 64-bit number: an optional minus sign (never before
/// zero) and a magnitude in range.
pub open spec fn parse_int(s: Seq<char>, i: int) -> Option<(int, int)> {
    if 0 <= i < s.len() && s[i] == '-' {
        match parse_num(s, i + 1) {
            Some((v, j)) => if 1 <= v <= 0x8000_0000_0000_0000 {
                Some((-v, j))
            } else {
                None
            },
            None => None,
        }
    } else {
        match parse_num(s, i) {
            Some((v, j)) => if v <= 0x7fff_ffff_ffff_ffff {
                Some((v, j))
            } else {
                None
            },
            None => None,
        }
    }
}

/// The rendering of a length-prefixed piece of text.
pub open spec fn ser_str(t: Seq<char>) -> Seq<char> {
    dec_digits(t.len() as int) + seq![':'] + t
}

/// Parses a length-prefixed piece of text.
pub open spec fn parse_str(s: Seq<char>, i: int) -> Option<(Seq<char>, int)> {
    match parse_num(s, i) {
        Some((len, j)) => if j < s.len() && s[j] == ':' && j + 1 + len <= s.len() {
            Some((s.subrange(j + 1, j + 1 + len), j + 1 + len))
        } else {
            None
        },
        None => None,
    }
}

/// Every character of a decimal rendering is a digit, the rendering is
/// non-empty, and a positive value never starts with a zero.
pub proof fn lemma_dec_digits_shape(n: int)
    requires
        0 <= n,
    ensures
        dec_digits(n).len() >= 1,
        forall|k: int| 0 <= k < dec_digits(n).len() ==> is_digit(#[trigger] dec_digits(n)[k]),
        n >= 1 ==> dec_digits(n)[0] != '0',
        n <= 9 ==> dec_digits(n).len() == 1,
    decreases n,
{
    if n < 10 {
        assert(is_digit(digit_char(n))) by {
            assert(digit_char(n) as u32 == 48 + n || n > 9);
        };
    } else {
        lemma_dec_digits_shape(n / 10);
        assert(is_digit(digit_char(n % 10)));
        assert(dec_digits(n) == dec_digits(n / 10).push(digit_char(n % 10)));
        assert forall|k: int| 0 <= k < dec_digits(n).len() implies is_digit(
            #[trigger] dec_digits(n)[k],
        ) by {
            if k < dec_digits(n / 10).len() {
                assert(dec_digits(n)[k] == dec_digits(n / 10)[k]);
            }
        };
        assert(dec_digits(n)[0] == dec_digits(n / 10)[0]);
    }
}

/// A digit character reads back as its value.
pub proof fn lemma_digit_val_char(d: int)
    requires
        0 <= d <= 9,
    ensures
        digit_val(digit_char(d)) == d,
{
}

/// A digit run flanked by a non-digit (or the end) ends exactly there.
pub proof fn lemma_run_end(s: Seq<char>, i: int, j: int)
    requires
        0 <= i <= j <= s.len(),
        forall|k: int| i <= k < j ==> is_digit(#[trigger] s[k]),
        j == s.len() || !is_digit(s[j]),
    ensures
        digit_run_end(s, i) == j,
    decreases j - i,
{
    if i < j {
        lemma_run_end(s, i + 1, j);
    }
}

/// The digits of a rendering read back as the rendered value.
pub proof fn lemma_num_value_dec(s: Seq<char>, i: int, n: int)
    requires
        0 <= n,
        0 <= i,
        i + dec_digits(n).len() <= s.len(),
        s.subrange(i, i + dec_digits(n).len() as int) == dec_digits(n),
    ensures
        num_value(s, i, i + dec_digits(n).len() as int) == n,
    decreases n,
{
    let len = dec_digits(n).len() as int;
    if n < 10 {
        assert(s[i] == dec_digits(n)[0]);
        assert(num_value(s, i, i) == 0);
        assert(num_value(s, i, i + 1) == 0 * 10 + digit_val(s[i]));
        lemma_digit_val_char(n);
    } else {
        assert(dec_digits(n) == dec_digits(n / 10).push(digit_char(n % 10)));
        let plen = dec_digits(n / 10).len() as int;
        assert(s.subrange(i, i + plen) =~= dec_digits(n / 10)) by {
            assert forall|k: int| 0 <= k < plen implies #[trigger] s.subrange(i, i + plen)[k]
                == dec_digits(n / 10)[k] by {
                assert(s[i + k] == s.subrange(i, i + len)[k]);
                assert(dec_digits(n)[k] == dec_digits(n / 10)[k]);
            };
        };
        lemma_num_value_dec(s, i, n / 10);
        assert(s[i + len - 1] == dec_digits(n)[len - 1]);
        assert(dec_digits(n)[len - 1] == digit_char(n % 10));
        lemma_digit_val_char(n % 10);
        assert(num_value(s, i, i + len) == num_value(s, i, i + len - 1) * 10 + digit_val(
            s[i + len - 1],
        ));
    }
}

/// A canonical rendering at position `i`, flanked by a non-digit, parses
/// back to its value.
pub proof fn lemma_parse_num_round(s: Seq<char>, i: int, n: int)
    requires
        0 <= n <= u128::MAX,
        0 <= i,
        i + dec_digits(n).len() <= s.len(),
        s.subrange(i, i + dec_digits(n).len() as int) == dec_digits(n),
        i + dec_digits(n).len() == s.len() || !is_digit(s[i + dec_digits(n).len()]),
    ensures
        parse_num(s, i) == Some((n, i + dec_digits(n).len() as int)),
{
    let len = dec_digits(n).len() as int;
    lemma_dec_digits_shape(n);
    assert forall|k: int| i <= k < i + len implies is_digit(#[trigger] s[k]) by {
        assert(s[k] == s.subrange(i, i + len)[k - i]);
        assert(is_digit(dec_digits(n)[k - i]));
    };
    lemma_run_end(s, i, i + len);
    lemma_num_value_dec(s, i, n);
    assert(s[i] == dec_digits(n)[0]);
    if n >= 1 {
        assert(s[i] != '0');
    } else {
        assert(len == 1);
    }
}

/// A canonical signed rendering parses back to its value.
pub proof fn lemma_parse_int_round(s: Seq<char>, i: int, v: int)
    requires
        -0x8000_0000_0000_0000 <= v <= 0x7fff_ffff_ffff_ffff,
        0 <= i,
        i + dec_signed(v).len() <= s.len(),
        s.subrange(i, i + dec_signed(v).len() as int) == dec_signed(v),
        i + dec_signed(v).len() == s.len() || !is_digit(s[i + dec_signed(v).len()]),
    ensures
        parse_int(s, i) == Some((v, i + dec_signed(v).len() as int)),
{
    let len = dec_signed(v).len() as int;
    if v < 0 {
        assert(dec_signed(v) == seq!['-'] + dec_digits(-v));
        assert(s[i] == dec_signed(v)[0]);
        assert(s[i] == '-');
        let mlen = dec_digits(-v).len() as int;
        assert(s.subrange(i + 1, i + 1 + mlen) =~= dec_digits(-v)) by {
            assert forall|k: int| 0 <= k < mlen implies #[trigger] s.subrange(i + 1, i + 1 + mlen)[k]
                == dec_digits(-v)[k] by {
                assert(s[i + 1 + k] == s.subrange(i, i + len)[1 + k]);
                assert(dec_signed(v)[1 + k] == dec_digits(-v)[k]);
            };
        };
        lemma_parse_num_round(s, i + 1, -v);
    } else {
        lemma_dec_digits_shape(v);
        assert(s[i] == dec_digits(v)[0]);
        assert(s[i] != '-') by {
            assert(is_digit(dec_digits(v)[0]));
        };
        lemma_parse_num_round(s, i, v);
    }
}

/// A canonical length-prefixed rendering parses back to its text.
pub proof fn lemma_parse_str_round(s: Seq<char>, i: int, t: Seq<char>)
    requires
        0 <= i,
        t.len() <= u128::MAX,
        i + ser_str(t).len() <= s.len(),
        s.subrange(i, i + ser_str(t).len() as int) == ser_str(t),
    ensures
        parse_str(s, i) == Some((t, i + ser_str(t).len() as int)),
{
    let dlen = dec_digits(t.len() as int).len() as int;
    let slen = ser_str(t).len() as int;
    assert(s.subrange(i, i + dlen) =~= dec_digits(t.len() as int)) by {
        assert forall|k: int| 0 <= k < dlen implies #[trigger] s.subrange(i, i + dlen)[k]
            == dec_digits(t.len() as int)[k] by {
            assert(s[i + k] == s.subrange(i, i + slen)[k]);
            assert(ser_str(t)[k] == dec_digits(t.len() as int)[k]);
        };
    };
    assert(s[i + dlen] == ser_str(t)[dlen]);
    assert(s[i + dlen] == ':');
    assert(!is_digit(':'));
    lemma_parse_num_round(s, i, t.len() as int);
    assert(s.subrange(i + dlen + 1, i + dlen + 1 + t.len() as int) =~= t) by {
        assert forall|k: int| 0 <= k < t.len() implies #[trigger] s.subrange(
            i + dlen + 1,
            i + dlen + 1 + t.len() as int,
        )[k] == t[k] by {
            assert(s[i + dlen + 1 + k] == s.subrange(i, i + slen)[dlen + 1 + k]);
            assert(ser_str(t)[dlen + 1 + k] == t[k]);
        };
    };
}

/// Every position strictly inside a digit run holds a digit.
pub proof fn lemma_run_digits(s: Seq<char>, i: int, q: int)
    requires
        0 <= i <= s.len(),
        i <= q < digit_run_end(s, i),
    ensures
        is_digit(s[q]),
    decreases q - i,
{
    if i < q {
        lemma_run_digits(s, i + 1, q);
    }
}

/// Whether a character is a decimal digit.
fn is_digit_exec(c: char) -> (r: bool)
    ensures
        r == is_digit(c),
{
    let cu = c as u32;
    48 <= cu && cu <= 57
}

/// Finds the end of the digit run starting at `i`.
fn run_end_exec(s: &Vec<char>, i: usize) -> (r: usize)
    requires
        i <= s@.len(),
    ensures
        r as int == digit_run_end(s@, i as int),
        i <= r <= s@.len(),
{
    let n: usize = s.len();
    let mut j: usize = i;
    while j < n && is_digit_exec(s[j])
        invariant
            n == s@.len(),
            i <= j <= n,
            digit_run_end(s@, i as int) == digit_run_end(s@, j as int),
        decreases n - j,
    {
        j = j + 1;
    }
    proof {
        if j < n {
            assert(!is_digit(s@[j as int]));
        }
        assert(digit_run_end(s@, j as int) == j as int);
    }
    j
}

/// Parses a canonical decimal number.
fn parse_num_exec(s: &Vec<char>, i: usize) -> (r: Option<(u128, usize)>)
    requires
        i <= s@.len(),
    ensures
        match r {
            Some((v, j)) => parse_num(s@, i as int) == Some((v as int, j as int)) && i < j
                <= s@.len(),
            None => parse_num(s@, i as int) is None,
        },
{
    let j = run_end_exec(s, i);
    if j == i {
        return None;
    }
    if s[i] == '0' && j > i + 1 {
        return None;
    }
    proof {
        assert forall|q: int| i <= q < j implies is_digit(#[trigger] s@[q]) by {
            lemma_run_digits(s@, i as int, q);
        };
        assert(num_value(s@, i as int, i as int) == 0);
    }
    let mut acc: u128 = 0;
    let mut k: usize = i;
    while k < j
        invariant
            i <= k <= j <= s@.len(),
            j as int == digit_run_end(s@, i as int),
            forall|q: int| i <= q < j ==> is_digit(#[trigger] s@[q]),
            acc as int == num_value(s@, i as int, k as int),
        decreases j - k,
    {
        proof {
            assert(is_digit(s@[k as int]));
        }
        let c = s[k];
        let cu: u32 = c as u32;
        let d: u128 = (cu as u128) - 48;
        proof {
            assert(d < 10);
        }
        if acc > (u128::MAX - d) / 10 {
            proof {
                // The value keeps growing with every further digit, so it
                // exceeds the representable range.
                assert(num_value(s@, i as int, k as int + 1) == acc * 10 + d);
                assert(acc * 10 + d > u128::MAX as int) by (nonlinear_arith)
                    requires acc as int > ((u128::MAX - d) as int) / 10 && d < 10 && acc >= 0;
                lemma_num_value_grows(s@, i as int, k as int + 1, j as int);
                assert(num_value(s@, i as int, j as int) > u128::MAX as int);
            }
            return None;
        }
        proof {
            assert(acc * 10 + d <= u128::MAX as int) by (nonlinear_arith)
                requires acc as int <= ((u128::MAX - d) as int) / 10 && d < 10 && acc >= 0;
        }
        acc = acc * 10 + d;
        k = k + 1;
    }
    proof {
        if i < j {
            assert(is_digit(s@[i as int]));
        }
    }
    Some((acc, j))
}

/// The value of a digit run never shrinks as the run extends.
pub proof fn lemma_num_value_grows(s: Seq<char>, i: int, k: int, j: int)
    requires
        i <= k <= j,
        forall|q: int| i <= q < j ==> is_digit(#[trigger] s[q]),
        num_value(s, i, k) >= 0,
    ensures
        num_value(s, i, j) >= num_value(s, i, k),
        num_value(s, i, j) >= 0,
    decreases j - k,
{
    if k < j {
        assert(num_value(s, i, k + 1) == num_value(s, i, k) * 10 + digit_val(s[k]));
        assert(num_value(s, i, k) * 10 >= num_value(s, i, k)) by (nonlinear_arith)
            requires num_value(s, i, k) >= 0;
        assert(digit_val(s[k]) >= 0);
        lemma_num_value_grows(s, i, k + 1, j);
    }
}

/// Parses a signed 64-bit number.
fn parse_int_exec(s: &Vec<char>, i: usize) -> (r: Option<(i64, usize)>)
    requires
        i <= s@.len(),
    ensures
        match r {
            Some((v, j)) => parse_int(s@, i as int) == Some((v as int, j as int)) && i < j
                <= s@.len(),
            None => parse_int(s@, i as int) is None,
        },
{
    if i < s.len() && s[i] == '-' {
        match parse_num_exec(s, i + 1) {
            Some((v, j)) => {
                if 1 <= v && v <= 0x8000_0000_0000_0000u128 {
                    let m: i64 = if v == 0x8000_0000_0000_0000u128 {
                        i64::MIN
                    } else {
                        -(v as i64)
                    };
                    proof {
                        assert(m as int == -(v as int));
                    }
                    Some((m, j))
                } else {
                    None
                }
            },
            None => None,
        }
    } else {
        match parse_num_exec(s, i) {
            Some((v, j)) => {
                if v <= 0x7fff_ffff_ffff_ffffu128 {
                    Some((v as i64, j))
                } else {
                    None
                }
            },
            None => None,
        }
    }
}

/// Parses a length-prefixed piece of text.
fn parse_str_exec(s: &Vec<char>, i: usize) -> (r: Option<(Vec<char>, usize)>)
    requires
        i <= s@.len(),
    ensures
        match r {
            Some((t, j)) => parse_str(s@, i as int) == Some((t@, j as int)) && i < j <= s@.len(),
            None => parse_str(s@, i as int) is None,
        },
{
    match parse_num_exec(s, i) {
        Some((len128, j)) => {
            if j < s.len() && s[j] == ':' && len128 <= (s.len() - j - 1) as u128 {
                proof {
                    assert(s@.len() <= usize::MAX) by {
                        assert(s.len() as int == s@.len());
                    };
                }
                let len = len128 as usize;
                let mut t: Vec<char> = Vec::new();
                let mut k: usize = 0;
                proof {
                    assert(t@ =~= s@.subrange(j as int + 1, j as int + 1));
                }
                while k < len
                    invariant
                        s@.len() <= usize::MAX,
                        j < s@.len(),
                        j + 1 + len <= s@.len(),
                        k <= len,
                        t@ == s@.subrange(j as int + 1, j as int + 1 + k as int),
                    decreases len - k,
                {
                    t.push(s[j + 1 + k]);
                    proof {
                        assert(t@ =~= s@.subrange(j as int + 1, j as int + 1 + k as int + 1));
                    }
                    k = k + 1;
                }
                Some((t, j + 1 + len))
            } else {
                None
            }
        },
        None => None,
    }
}

/// Consumes one expected character.
fn expect_char(s: &Vec<char>, i: usize, c: char) -> (r: Option<usize>)
    requires
        i <= s@.len(),
    ensures
        match r {
            Some(j) => i < s@.len() && s@[i as int] == c && j == i + 1,
            None => !(i < s@.len() && s@[i as int] == c),
        },
{
    if i < s.len() && s[i] == c {
        Some(i + 1)
    } else {
        None
    }
}

/// Parses a 64-bit number.
pub open spec fn parse_u64v(s: Seq<char>, i: int) -> Option<(u64, int)> {
    match parse_num(s, i) {
        Some((v, j)) => if v <= u64::MAX as int {
            Some((v as u64, j))
        } else {
            None
        },
        None => None,
    }
}

/// Parses a 128-bit identifier.
pub open spec fn parse_u128v(s: Seq<char>, i: int) -> Option<(u128, int)> {
    match parse_num(s, i) {
        Some((v, j)) => Some((v as u128, j)),
        None => None,
    }
}

/// Parses a signed 64-bit value.
pub open spec fn parse_i64v(s: Seq<char>, i: int) -> Option<(i64, int)> {
    match parse_int(s, i) {
        Some((v, j)) => Some((v as i64, j)),
        None => None,
    }
}

/// Consumes one space.
pub open spec fn parse_sp(s: Seq<char>, i: int) -> Option<int> {
    if 0 <= i < s.len() && s[i] == ' ' {
        Some(i + 1)
    } else {
        None
    }
}

/// The rendering of a node's shared metadata.
pub open spec fn ser_meta(m: NodeMetadata) -> Seq<char> {
    dec_digits(m.id as int) + " "@ + dec_digits(m.activation as int) + " "@ + dec_digits(
        m.stability as int,
    ) + " "@ + dec_digits(m.last_tick as int)
}

/// Parses a node's shared metadata.
pub open spec fn parse_meta(s: Seq<char>, i: int) -> Option<(NodeMetadata, int)> {
    match parse_u128v(s, i) {
        Some((id, a)) => match parse_sp(s, a) {
            Some(b) => match parse_u64v(s, b) {
                Some((act, c)) => match parse_sp(s, c) {
                    Some(d) => match parse_u64v(s, d) {
                        Some((stab, e)) => match parse_sp(s, e) {
                            Some(f) => match parse_u64v(s, f) {
                                Some((last, g)) => Some(
                                    (
                                        NodeMetadata {
                                            id,
                                            activation: act,
                                            stability: stab,
                                            last_tick: last,
                                        },
                                        g,
                                    ),
                                ),
                                None => None,
                            },
                            None => None,
                        },
                        None => None,
                    },
                    None => None,
                },
                None => None,
            },
            None => None,
        },
        None => None,
    }
}

/// The rendering of one node.
pub open spec fn ser_node(n: NodeModel) -> Seq<char> {
    match n {
        NodeModel::Concept { meta, name, definition } => "c "@ + ser_meta(meta) + " "@ + ser_str(
            name,
        ) + " "@ + ser_str(definition),
        NodeModel::Episode { meta, summary, timestamp } => "e "@ + ser_meta(meta) + " "@
            + dec_signed(timestamp as int) + " "@ + ser_str(summary),
        NodeModel::State { meta, valence, arousal } => "s "@ + ser_meta(meta) + " "@ + dec_signed(
            valence as int,
        ) + " "@ + dec_signed(arousal as int),
    }
}

/// Parses one node.
pub open spec fn parse_node(s: Seq<char>, i: int) -> Option<(NodeModel, int)> {
    if !(0 <= i < s.len()) {
        None
    } else {
        let kind = s[i];
        match parse_sp(s, i + 1) {
            Some(j0) => match parse_meta(s, j0) {
                Some((meta, j1)) => if kind == 'c' {
                    match parse_sp(s, j1) {
                        Some(j2) => match parse_str(s, j2) {
                            Some((name, j3)) => match parse_sp(s, j3) {
                                Some(j4) => match parse_str(s, j4) {
                                    Some((definition, j5)) => Some(
                                        (NodeModel::Concept { meta, name, definition }, j5),
                                    ),
                                    None => None,
                                },
                                None => None,
                            },
                            None => None,
                        },
                        None => None,
                    }
                } else if kind == 'e' {
                    match parse_sp(s, j1) {
                        Some(j2) => match parse_i64v(s, j2) {
                            Some((timestamp, j3)) => match parse_sp(s, j3) {
                                Some(j4) => match parse_str(s, j4) {
                                    Some((summary, j5)) => Some(
                                        (NodeModel::Episode { meta, summary, timestamp }, j5),
                                    ),
                                    None => None,
                                },
                                None => None,
                            },
                            None => None,
                        },
                        None => None,
                    }
                } else if kind == 's' {
                    match parse_sp(s, j1) {
                        Some(j2) => match parse_i64v(s, j2) {
                            Some((valence, j3)) => match parse_sp(s, j3) {
                                Some(j4) => match parse_i64v(s, j4) {
                                    Some((arousal, j5)) => Some(
                                        (NodeModel::State { meta, valence, arousal }, j5),
                                    ),
                                    None => None,
                                },
                                None => None,
                            },
                            None => None,
                        },
                        None => None,
                    }
                } else {
                    None
                },
                None => None,
            },
            None => None,
        }
    }
}

/// The rendering of one edge.
pub open spec fn ser_edge(e: Edge) -> Seq<char> {
    match e {
        Edge::Preceded(a, b) => "p "@ + dec_digits(a as int) + " "@ + dec_digits(b as int),
        Edge::Mentioned(a, b) => "m "@ + dec_digits(a as int) + " "@ + dec_digits(b as int),
        Edge::Evoked(a, b) => "v "@ + dec_digits(a as int) + " "@ + dec_digits(b as int),
        Edge::Associated(a, b, w) => "a "@ + dec_digits(a as int) + " "@ + dec_digits(b as int)
            + " "@ + dec_signed(w as int),
        Edge::Inhibited(a, b, w) => "i "@ + dec_digits(a as int) + " "@ + dec_digits(b as int)
            + " "@ + dec_signed(w as int),
    }
}

/// Parses one edge.
pub open spec fn parse_edge(s: Seq<char>, i: int) -> Option<(Edge, int)> {
    if !(0 <= i < s.len()) {
        None
    } else {
        let kind = s[i];
        if kind != 'p' && kind != 'm' && kind != 'v' && kind != 'a' && kind != 'i' {
            None
        } else {
            match parse_sp(s, i + 1) {
                Some(j0) => match parse_u128v(s, j0) {
                    Some((a, j1)) => match parse_sp(s, j1) {
                        Some(j2) => match parse_u128v(s, j2) {
                            Some((b, j3)) => if kind == 'p' {
                                Some((Edge::Preceded(a, b), j3))
                            } else if kind == 'm' {
                                Some((Edge::Mentioned(a, b), j3))
                            } else if kind == 'v' {
                                Some((Edge::Evoked(a, b), j3))
                            } else {
                                match parse_sp(s, j3) {
                                    Some(j4) => match parse_i64v(s, j4) {
                                        Some((w, j5)) => if kind == 'a' {
                                            Some((Edge::Associated(a, b, w), j5))
                                        } else {
                                            Some((Edge::Inhibited(a, b, w), j5))
                                        },
                                        None => None,
                                    },
                                    None => None,
                                }
                            },
                            None => None,
                        },
                        None => None,
                    },
                    None => None,
                },
                None => None,
            }
        }
    }
}

/// The rendering of the wall-clock anchor.
pub open spec fn ser_anchor(anchor: Option<i64>) -> Seq<char> {
    match anchor {
        Option::None => "n"@,
        Option::Some(v) => "s "@ + dec_signed(v as int),
    }
}

/// Parses the wall-clock anchor.
pub open spec fn parse_anchor(s: Seq<char>, i: int) -> Option<(Option<i64>, int)> {
    if !(0 <= i < s.len()) {
        None
    } else if s[i] == 'n' {
        Some((Option::None, i + 1))
    } else if s[i] == 's' {
        match parse_sp(s, i + 1) {
            Some(j) => match parse_i64v(s, j) {
                Some((v, j2)) => Some((Option::Some(v), j2)),
                None => None,
            },
            None => None,
        }
    } else {
        None
    }
}

/// The rendering of the node list from position `k` on.
pub open spec fn ser_nodes_from(nodes: Seq<NodeModel>, k: int) -> Seq<char>
    decreases nodes.len() - k,
{
    if k < 0 || k >= nodes.len() {
        Seq::empty()
    } else {
        " "@ + ser_node(nodes[k]) + ser_nodes_from(nodes, k + 1)
    }
}

/// Parses `count` nodes, each preceded by a space.
pub open spec fn parse_nodes(s: Seq<char>, i: int, count: nat) -> Option<(Seq<NodeModel>, int)>
    decreases count,
{
    if count == 0 {
        Some((Seq::empty(), i))
    } else {
        match parse_sp(s, i) {
            Some(j) => match parse_node(s, j) {
                Some((n, j2)) => match parse_nodes(s, j2, (count - 1) as nat) {
                    Some((rest, j3)) => Some((seq![n] + rest, j3)),
                    None => None,
                },
                None => None,
            },
            None => None,
        }
    }
}

/// The rendering of the edge list from position `k` on.
pub open spec fn ser_edges_from(edges: Seq<Edge>, k: int) -> Seq<char>
    decreases edges.len() - k,
{
    if k < 0 || k >= edges.len() {
        Seq::empty()
    } else {
        " "@ + ser_edge(edges[k]) + ser_edges_from(edges, k + 1)
    }
}

/// Parses `count` edges, each preceded by a space.
pub open spec fn parse_edges(s: Seq<char>, i: int, count: nat) -> Option<(Seq<Edge>, int)>
    decreases count,
{
    if count == 0 {
        Some((Seq::empty(), i))
    } else {
        match parse_sp(s, i) {
            Some(j) => match parse_edge(s, j) {
                Some((e, j2)) => match parse_edges(s, j2, (count - 1) as nat) {
                    Some((rest, j3)) => Some((seq![e] + rest, j3)),
                    None => None,
                },
                None => None,
            },
            None => None,
        }
    }
}

/// The rendering of the whole graph.
pub open spec fn ser_graph(g: GraphModel) -> Seq<char> {
    "loom "@ + dec_digits(g.decay as int) + " "@ + dec_digits(g.tick as int) + " "@ + ser_anchor(
        g.anchor,
    ) + " "@ + dec_digits(g.nodes.len() as int) + ser_nodes_from(g.nodes, 0) + " "@ + dec_digits(
        g.edges.len() as int,
    ) + ser_edges_from(g.edges, 0)
}

/// Parses a whole graph document; the document must be consumed completely.
pub open spec fn parse_graph(s: Seq<char>) -> Option<GraphModel> {
    if !(s.len() >= 5 && s[0] == 'l' && s[1] == 'o' && s[2] == 'o' && s[3] == 'm' && s[4] == ' ') {
        None
    } else {
        match parse_u64v(s, 5) {
            Some((decay, a)) => match parse_sp(s, a) {
                Some(b) => match parse_u64v(s, b) {
                    Some((tick, c)) => match parse_sp(s, c) {
                        Some(d) => match parse_anchor(s, d) {
                            Some((anchor, e)) => match parse_sp(s, e) {
                                Some(f) => match parse_u64v(s, f) {
                                    Some((ncount, g0)) => match parse_nodes(
                                        s,
                                        g0,
                                        ncount as nat,
                                    ) {
                                        Some((nodes, g1)) => match parse_sp(s, g1) {
                                            Some(g2) => match parse_u64v(s, g2) {
                                                Some((ecount, g3)) => match parse_edges(
                                                    s,
                                                    g3,
                                                    ecount as nat,
                                                ) {
                                                    Some((edges, g4)) => if g4 == s.len() {
                                                        Some(
                                                            GraphModel {
                                                                nodes,
                                                                edges,
                                                                tick,
                                                                decay,
                                                                anchor,
                                                            },
                                                        )
                                                    } else {
                                                        None
                                                    },
                                                    None => None,
                                                },
                                                None => None,
                                            },
                                            None => None,
                                        },
                                        None => None,
                                    },
                                    None => None,
                                },
                                None => None,
                            },
                            None => None,
                        },
                        None => None,
                    },
                    None => None,
                },
                None => None,
            },
            None => None,
        }
    }
}

/// A piece of an embedded rendering sits at its offset.
pub proof fn lemma_embed(s: Seq<char>, i: int, whole: Seq<char>, off: int, piece: Seq<char>)
    requires
        0 <= i,
        0 <= off,
        i + whole.len() <= s.len(),
        off + piece.len() <= whole.len(),
        s.subrange(i, i + whole.len() as int) == whole,
        forall|k: int| 0 <= k < piece.len() ==> whole[off + k] == #[trigger] piece[k],
    ensures
        s.subrange(i + off, i + off + piece.len() as int) == piece,
{
    assert forall|k: int| 0 <= k < piece.len() implies #[trigger] s.subrange(
        i + off,
        i + off + piece.len() as int,
    )[k] == piece[k] by {
        assert(s[i + off + k] == s.subrange(i, i + whole.len() as int)[off + k]);
    };
    assert(s.subrange(i + off, i + off + piece.len() as int) =~= piece);
}

/// One embedded character of a rendering.
pub proof fn lemma_embed_char(s: Seq<char>, i: int, whole: Seq<char>, off: int)
    requires
        0 <= i,
        0 <= off < whole.len(),
        i + whole.len() <= s.len(),
        s.subrange(i, i + whole.len() as int) == whole,
    ensures
        s[i + off] == whole[off],
{
    assert(s[i + off] == s.subrange(i, i + whole.len() as int)[off]);
}

/// An embedded metadata rendering parses back to its metadata.
pub proof fn lemma_ser_meta_round(s: Seq<char>, i: int, m: NodeMetadata)
    requires
        0 <= i,
        i + ser_meta(m).len() <= s.len(),
        s.subrange(i, i + ser_meta(m).len() as int) == ser_meta(m),
        i + ser_meta(m).len() == s.len() || !is_digit(s[i + ser_meta(m).len()]),
    ensures
        parse_meta(s, i) == Some((m, i + ser_meta(m).len() as int)),
{
    reveal_strlit(" ");
    assert(" "@ =~= seq![' ']);
    let w = ser_meta(m);
    let d1 = dec_digits(m.id as int);
    let d2 = dec_digits(m.activation as int);
    let d3 = dec_digits(m.stability as int);
    let d4 = dec_digits(m.last_tick as int);
    let o1: int = 0;
    let o2: int = d1.len() as int + 1;
    let o3: int = o2 + d2.len() + 1;
    let o4: int = o3 + d3.len() + 1;
    assert(w.len() == d1.len() + d2.len() + d3.len() + d4.len() + 3);
    lemma_embed(s, i, w, o1, d1);
    lemma_embed_char(s, i, w, d1.len() as int);
    assert(s[i + d1.len()] == ' ');
    lemma_parse_num_round(s, i, m.id as int);
    assert(parse_u128v(s, i) == Some((m.id, i + d1.len() as int)));
    assert(parse_sp(s, i + d1.len() as int) == Some(i + o2));
    lemma_embed(s, i, w, o2, d2);
    lemma_embed_char(s, i, w, o2 + d2.len());
    assert(s[i + o2 + d2.len()] == ' ');
    lemma_parse_num_round(s, i + o2, m.activation as int);
    assert(parse_sp(s, i + o2 + d2.len()) == Some(i + o3));
    lemma_embed(s, i, w, o3, d3);
    lemma_embed_char(s, i, w, o3 + d3.len());
    assert(s[i + o3 + d3.len()] == ' ');
    lemma_parse_num_round(s, i + o3, m.stability as int);
    assert(parse_sp(s, i + o3 + d3.len()) == Some(i + o4));
    lemma_embed(s, i, w, o4, d4);
    lemma_parse_num_round(s, i + o4, m.last_tick as int);
}

/// Whether a node's text lengths are within the codec's length prefixes
/// (a machine limit: every stored string fits).
pub open spec fn node_fits(n: NodeModel) -> bool {
    match n {
        NodeModel::Concept { name, definition, .. } => name.len() <= u128::MAX && definition.len()
            <= u128::MAX,
        NodeModel::Episode { summary, .. } => summary.len() <= u128::MAX,
        NodeModel::State { .. } => true,
    }
}

/// An embedded node rendering parses back to its node.
#[verifier::rlimit(100)]
pub proof fn lemma_ser_node_round(s: Seq<char>, i: int, n: NodeModel)
    requires
        node_fits(n),
        0 <= i,
        i + ser_node(n).len() <= s.len(),
        s.subrange(i, i + ser_node(n).len() as int) == ser_node(n),
        i + ser_node(n).len() == s.len() || !is_digit(s[i + ser_node(n).len()]),
    ensures
        parse_node(s, i) == Some((n, i + ser_node(n).len() as int)),
{
    reveal_strlit(" ");
    reveal_strlit("c ");
    reveal_strlit("e ");
    reveal_strlit("s ");
    assert(" "@ =~= seq![' ']);
    assert("c "@ =~= seq!['c', ' ']);
    assert("e "@ =~= seq!['e', ' ']);
    assert("s "@ =~= seq!['s', ' ']);
    let w = ser_node(n);
    let m = n.meta();
    let mw = ser_meta(m);
    lemma_embed_char(s, i, w, 0);
    lemma_embed_char(s, i, w, 1);
    match n {
        NodeModel::Concept { meta, name, definition } => {
            assert(s[i] == 'c' && s[i + 1] == ' ');
            let om: int = 2;
            let o1: int = om + mw.len();
            let s1 = ser_str(name);
            let o2: int = o1 + 1 + s1.len();
            let s2 = ser_str(definition);
            assert(w.len() == 2 + mw.len() + 1 + s1.len() + 1 + s2.len());
            lemma_embed(s, i, w, om, mw);
            lemma_embed_char(s, i, w, om + mw.len());
            assert(s[i + om + mw.len()] == ' ');
            lemma_ser_meta_round(s, i + om, meta);
            assert(parse_sp(s, i + o1) == Some(i + o1 + 1));
            lemma_embed(s, i, w, o1 + 1, s1);
            lemma_parse_str_round(s, i + o1 + 1, name);
            lemma_embed_char(s, i, w, o2);
            assert(s[i + o2] == ' ');
            assert(parse_sp(s, i + o2) == Some(i + o2 + 1));
            lemma_embed(s, i, w, o2 + 1, s2);
            lemma_parse_str_round(s, i + o2 + 1, definition);
        },
        NodeModel::Episode { meta, summary, timestamp } => {
            assert(s[i] == 'e' && s[i + 1] == ' ');
            let om: int = 2;
            let o1: int = om + mw.len();
            let ts = dec_signed(timestamp as int);
            let o2: int = o1 + 1 + ts.len();
            let s1 = ser_str(summary);
            assert(w.len() == 2 + mw.len() + 1 + ts.len() + 1 + s1.len());
            lemma_embed(s, i, w, om, mw);
            lemma_embed_char(s, i, w, om + mw.len());
            assert(s[i + om + mw.len()] == ' ');
            lemma_ser_meta_round(s, i + om, meta);
            assert(parse_sp(s, i + o1) == Some(i + o1 + 1));
            lemma_embed(s, i, w, o1 + 1, ts);
            lemma_embed_char(s, i, w, o2);
            assert(s[i + o2] == ' ');
            lemma_parse_int_round(s, i + o1 + 1, timestamp as int);
            assert(parse_sp(s, i + o2) == Some(i + o2 + 1));
            lemma_embed(s, i, w, o2 + 1, s1);
            lemma_parse_str_round(s, i + o2 + 1, summary);
        },
        NodeModel::State { meta, valence, arousal } => {
            assert(s[i] == 's' && s[i + 1] == ' ');
            let om: int = 2;
            let o1: int = om + mw.len();
            let vs = dec_signed(valence as int);
            let o2: int = o1 + 1 + vs.len();
            let ar = dec_signed(arousal as int);
            assert(w.len() == 2 + mw.len() + 1 + vs.len() + 1 + ar.len());
            lemma_embed(s, i, w, om, mw);
            lemma_embed_char(s, i, w, om + mw.len());
            assert(s[i + om + mw.len()] == ' ');
            lemma_ser_meta_round(s, i + om, meta);
            assert(parse_sp(s, i + o1) == Some(i + o1 + 1));
            lemma_embed(s, i, w, o1 + 1, vs);
            lemma_embed_char(s, i, w, o2);
            assert(s[i + o2] == ' ');
            lemma_parse_int_round(s, i + o1 + 1, valence as int);
            assert(parse_sp(s, i + o2) == Some(i + o2 + 1));
            lemma_embed(s, i, w, o2 + 1, ar);
            lemma_parse_int_round(s, i + o2 + 1, arousal as int);
        },
    }
}

/// An embedded edge rendering parses back to its edge.
pub proof fn lemma_ser_edge_round(s: Seq<char>, i: int, e: Edge)
    requires
        0 <= i,
        i + ser_edge(e).len() <= s.len(),
        s.subrange(i, i + ser_edge(e).len() as int) == ser_edge(e),
        i + ser_edge(e).len() == s.len() || !is_digit(s[i + ser_edge(e).len()]),
    ensures
        parse_edge(s, i) == Some((e, i + ser_edge(e).len() as int)),
{
    reveal_strlit(" ");
    reveal_strlit("p ");
    reveal_strlit("m ");
    reveal_strlit("v ");
    reveal_strlit("a ");
    reveal_strlit("i ");
    assert(" "@ =~= seq![' ']);
    assert("p "@ =~= seq!['p', ' ']);
    assert("m "@ =~= seq!['m', ' ']);
    assert("v "@ =~= seq!['v', ' ']);
    assert("a "@ =~= seq!['a', ' ']);
    assert("i "@ =~= seq!['i', ' ']);
    let w = ser_edge(e);
    lemma_embed_char(s, i, w, 0);
    lemma_embed_char(s, i, w, 1);
    let a = e.src();
    let b = e.dst();
    let d1 = dec_digits(a as int);
    let d2 = dec_digits(b as int);
    let o1: int = 2;
    let o2: int = o1 + d1.len() + 1;
    match e {
        Edge::Preceded(_, _) => {
            assert(s[i] == 'p' && s[i + 1] == ' ');
            assert(w.len() == 2 + d1.len() + 1 + d2.len());
            lemma_embed(s, i, w, o1, d1);
            lemma_embed_char(s, i, w, o1 + d1.len());
            assert(s[i + o1 + d1.len()] == ' ');
            lemma_parse_num_round(s, i + o1, a as int);
            lemma_embed(s, i, w, o2, d2);
            lemma_parse_num_round(s, i + o2, b as int);
        },
        Edge::Mentioned(_, _) => {
            assert(s[i] == 'm' && s[i + 1] == ' ');
            assert(w.len() == 2 + d1.len() + 1 + d2.len());
            lemma_embed(s, i, w, o1, d1);
            lemma_embed_char(s, i, w, o1 + d1.len());
            assert(s[i + o1 + d1.len()] == ' ');
            lemma_parse_num_round(s, i + o1, a as int);
            lemma_embed(s, i, w, o2, d2);
            lemma_parse_num_round(s, i + o2, b as int);
        },
        Edge::Evoked(_, _) => {
            assert(s[i] == 'v' && s[i + 1] == ' ');
            assert(w.len() == 2 + d1.len() + 1 + d2.len());
            lemma_embed(s, i, w, o1, d1);
            lemma_embed_char(s, i, w, o1 + d1.len());
            assert(s[i + o1 + d1.len()] == ' ');
            lemma_parse_num_round(s, i + o1, a as int);
            lemma_embed(s, i, w, o2, d2);
            lemma_parse_num_round(s, i + o2, b as int);
        },
        Edge::Associated(_, _, wt) => {
            assert(s[i] == 'a' && s[i + 1] == ' ');
            let ws = dec_signed(wt as int);
            let o3: int = o2 + d2.len() + 1;
            assert(w.len() == 2 + d1.len() + 1 + d2.len() + 1 + ws.len());
            lemma_embed(s, i, w, o1, d1);
            lemma_embed_char(s, i, w, o1 + d1.len());
            assert(s[i + o1 + d1.len()] == ' ');
            lemma_parse_num_round(s, i + o1, a as int);
            lemma_embed(s, i, w, o2, d2);
            lemma_embed_char(s, i, w, o2 + d2.len());
            assert(s[i + o2 + d2.len()] == ' ');
            lemma_parse_num_round(s, i + o2, b as int);
            lemma_embed(s, i, w, o3, ws);
            lemma_parse_int_round(s, i + o3, wt as int);
        },
        Edge::Inhibited(_, _, wt) => {
            assert(s[i] == 'i' && s[i + 1] == ' ');
            let ws = dec_signed(wt as int);
            let o3: int = o2 + d2.len() + 1;
            assert(w.len() == 2 + d1.len() + 1 + d2.len() + 1 + ws.len());
            lemma_embed(s, i, w, o1, d1);
            lemma_embed_char(s, i, w, o1 + d1.len());
            assert(s[i + o1 + d1.len()] == ' ');
            lemma_parse_num_round(s, i + o1, a as int);
            lemma_embed(s, i, w, o2, d2);
            lemma_embed_char(s, i, w, o2 + d2.len());
            assert(s[i + o2 + d2.len()] == ' ');
            lemma_parse_num_round(s, i + o2, b as int);
            lemma_embed(s, i, w, o3, ws);
            lemma_parse_int_round(s, i + o3, wt as int);
        },
    }
}

/// An embedded anchor rendering parses back to its anchor.
pub proof fn lemma_ser_anchor_round(s: Seq<char>, i: int, anchor: Option<i64>)
    requires
        0 <= i,
        i + ser_anchor(anchor).len() <= s.len(),
        s.subrange(i, i + ser_anchor(anchor).len() as int) == ser_anchor(anchor),
        i + ser_anchor(anchor).len() == s.len() || !is_digit(s[i + ser_anchor(anchor).len()]),
    ensures
        parse_anchor(s, i) == Some((anchor, i + ser_anchor(anchor).len() as int)),
{
    reveal_strlit("n");
    reveal_strlit("s ");
    assert("n"@ =~= seq!['n']);
    assert("s "@ =~= seq!['s', ' ']);
    let w = ser_anchor(anchor);
    lemma_embed_char(s, i, w, 0);
    match anchor {
        Option::None => {
            assert(s[i] == 'n');
        },
        Option::Some(v) => {
            assert(s[i] == 's');
            lemma_embed_char(s, i, w, 1);
            assert(s[i + 1] == ' ');
            let vs = dec_signed(v as int);
            assert(w.len() == 2 + vs.len());
            lemma_embed(s, i, w, 2, vs);
            lemma_parse_int_round(s, i + 2, v as int);
        },
    }
}

/// An embedded node-list rendering parses back to the list's tail.
pub proof fn lemma_ser_nodes_round(s: Seq<char>, i: int, nodes: Seq<NodeModel>, k: int)
    requires
        forall|q: int| 0 <= q < nodes.len() ==> node_fits(#[trigger] nodes[q]),
        0 <= i,
        0 <= k <= nodes.len(),
        i + ser_nodes_from(nodes, k).len() <= s.len(),
        s.subrange(i, i + ser_nodes_from(nodes, k).len() as int) == ser_nodes_from(nodes, k),
        i + ser_nodes_from(nodes, k).len() == s.len() || !is_digit(
            s[i + ser_nodes_from(nodes, k).len()],
        ),
    ensures
        parse_nodes(s, i, (nodes.len() - k) as nat) == Some(
            (nodes.skip(k), i + ser_nodes_from(nodes, k).len() as int),
        ),
    decreases nodes.len() - k,
{
    reveal_strlit(" ");
    assert(" "@ =~= seq![' ']);
    let w = ser_nodes_from(nodes, k);
    if k == nodes.len() {
        assert(nodes.skip(k) =~= Seq::<NodeModel>::empty());
    } else {
        let nw = ser_node(nodes[k]);
        let rest = ser_nodes_from(nodes, k + 1);
        assert(w == " "@ + nw + rest);
        assert(w.len() == 1 + nw.len() + rest.len());
        lemma_embed_char(s, i, w, 0);
        assert(s[i] == ' ');
        assert(parse_sp(s, i) == Some(i + 1));
        lemma_embed(s, i, w, 1, nw);
        if rest.len() > 0 {
            lemma_embed_char(s, i, w, 1 + nw.len() as int);
            assert(w[1 + nw.len() as int] == rest[0]);
            assert(rest[0] == ' ');
            assert(!is_digit(' '));
        }
        lemma_ser_node_round(s, i + 1, nodes[k]);
        lemma_embed(s, i, w, 1 + nw.len() as int, rest);
        lemma_ser_nodes_round(s, i + 1 + nw.len() as int, nodes, k + 1);
        assert(seq![nodes[k]] + nodes.skip(k + 1) =~= nodes.skip(k));
        assert((nodes.len() - k) as nat == ((nodes.len() - (k + 1)) as nat + 1) as nat);
    }
}

/// An embedded edge-list rendering parses back to the list's tail.
pub proof fn lemma_ser_edges_round(s: Seq<char>, i: int, edges: Seq<Edge>, k: int)
    requires
        0 <= i,
        0 <= k <= edges.len(),
        i + ser_edges_from(edges, k).len() <= s.len(),
        s.subrange(i, i + ser_edges_from(edges, k).len() as int) == ser_edges_from(edges, k),
        i + ser_edges_from(edges, k).len() == s.len() || !is_digit(
            s[i + ser_edges_from(edges, k).len()],
        ),
    ensures
        parse_edges(s, i, (edges.len() - k) as nat) == Some(
            (edges.skip(k), i + ser_edges_from(edges, k).len() as int),
        ),
    decreases edges.len() - k,
{
    reveal_strlit(" ");
    assert(" "@ =~= seq![' ']);
    let w = ser_edges_from(edges, k);
    if k == edges.len() {
        assert(edges.skip(k) =~= Seq::<Edge>::empty());
    } else {
        let ew = ser_edge(edges[k]);
        let rest = ser_edges_from(edges, k + 1);
        assert(w == " "@ + ew + rest);
        assert(w.len() == 1 + ew.len() + rest.len());
        lemma_embed_char(s, i, w, 0);
        assert(s[i] == ' ');
        assert(parse_sp(s, i) == Some(i + 1));
        lemma_embed(s, i, w, 1, ew);
        if rest.len() > 0 {
            lemma_embed_char(s, i, w, 1 + ew.len() as int);
            assert(w[1 + ew.len() as int] == rest[0]);
            assert(rest[0] == ' ');
            assert(!is_digit(' '));
        }
        lemma_ser_edge_round(s, i + 1, edges[k]);
        lemma_embed(s, i, w, 1 + ew.len() as int, rest);
        lemma_ser_edges_round(s, i + 1 + ew.len() as int, edges, k + 1);
        assert(seq![edges[k]] + edges.skip(k + 1) =~= edges.skip(k));
    }
}

/// The position where the node-count digits of a rendering start.
pub open spec fn nodes_count_pos(g: GraphModel) -> int {
    5 + dec_digits(g.decay as int).len() as int + 1 + dec_digits(g.tick as int).len() as int + 1
        + ser_anchor(g.anchor).len() as int + 1
}

/// Parsing the header of a rendering: magic word, decay, tick and anchor.
#[verifier::rlimit(100)]
proof fn lemma_graph_header_round(g: GraphModel)
    ensures
        ({
            let s = ser_graph(g);
            let a = 5 + dec_digits(g.decay as int).len() as int;
            let b = a + 1 + dec_digits(g.tick as int).len() as int;
            let c = b + 1 + ser_anchor(g.anchor).len() as int;
            &&& s.len() >= 5 && s[0] == 'l' && s[1] == 'o' && s[2] == 'o' && s[3] == 'm' && s[4]
                == ' '
            &&& parse_u64v(s, 5) == Some((g.decay, a))
            &&& parse_sp(s, a) == Some(a + 1)
            &&& parse_u64v(s, a + 1) == Some((g.tick, b))
            &&& parse_sp(s, b) == Some(b + 1)
            &&& parse_anchor(s, b + 1) == Some((g.anchor, c))
            &&& parse_sp(s, c) == Some(c + 1)
            &&& c + 1 == nodes_count_pos(g)
        }),
{
    reveal_strlit("loom ");
    reveal_strlit(" ");
    assert("loom "@ =~= seq!['l', 'o', 'o', 'm', ' ']);
    assert(" "@ =~= seq![' ']);
    let s = ser_graph(g);
    let d1 = dec_digits(g.decay as int);
    let d2 = dec_digits(g.tick as int);
    let aw = ser_anchor(g.anchor);
    let d3 = dec_digits(g.nodes.len() as int);
    let nw = ser_nodes_from(g.nodes, 0);
    let d4 = dec_digits(g.edges.len() as int);
    let ew = ser_edges_from(g.edges, 0);
    let o1: int = 5;
    let o2: int = o1 + d1.len() + 1;
    let o3: int = o2 + d2.len() + 1;
    let o4: int = o3 + aw.len() + 1;
    assert(s.len() == 5 + d1.len() + 1 + d2.len() + 1 + aw.len() + 1 + d3.len() + nw.len() + 1
        + d4.len() + ew.len());
    assert(s.subrange(0, s.len() as int) =~= s);
    assert(s[0] == 'l' && s[1] == 'o' && s[2] == 'o' && s[3] == 'm' && s[4] == ' ');
    lemma_embed(s, 0, s, o1, d1);
    lemma_embed_char(s, 0, s, o1 + d1.len() as int);
    assert(s[o1 + d1.len()] == ' ');
    lemma_parse_num_round(s, o1, g.decay as int);
    lemma_embed(s, 0, s, o2, d2);
    lemma_embed_char(s, 0, s, o2 + d2.len() as int);
    assert(s[o2 + d2.len()] == ' ');
    lemma_parse_num_round(s, o2, g.tick as int);
    lemma_embed(s, 0, s, o3, aw);
    lemma_embed_char(s, 0, s, o3 + aw.len() as int);
    assert(s[o3 + aw.len()] == ' ');
    assert(!is_digit(' '));
    lemma_ser_anchor_round(s, o3, g.anchor);
    assert(parse_sp(s, o4 - 1) == Some(o4));
}

/// Parsing the node list of a rendering.
#[verifier::rlimit(100)]
proof fn lemma_graph_nodes_round(g: GraphModel)
    requires
        forall|q: int| 0 <= q < g.nodes.len() ==> node_fits(#[trigger] g.nodes[q]),
        g.nodes.len() <= u64::MAX,
    ensures
        ({
            let s = ser_graph(g);
            let o4 = nodes_count_pos(g);
            let o5 = o4 + dec_digits(g.nodes.len() as int).len() as int;
            let o6 = o5 + ser_nodes_from(g.nodes, 0).len() as int + 1;
            &&& parse_u64v(s, o4) == Some((g.nodes.len() as u64, o5))
            &&& parse_nodes(s, o5, g.nodes.len() as nat) == Some((g.nodes, o6 - 1))
            &&& parse_sp(s, o6 - 1) == Some(o6)
        }),
{
    reveal_strlit("loom ");
    reveal_strlit(" ");
    assert("loom "@.len() == 5);
    assert(" "@ =~= seq![' ']);
    let s = ser_graph(g);
    let d1 = dec_digits(g.decay as int);
    let d2 = dec_digits(g.tick as int);
    let aw = ser_anchor(g.anchor);
    let d3 = dec_digits(g.nodes.len() as int);
    let nw = ser_nodes_from(g.nodes, 0);
    let d4 = dec_digits(g.edges.len() as int);
    let ew = ser_edges_from(g.edges, 0);
    let o4: int = nodes_count_pos(g);
    let o5: int = o4 + d3.len();
    let o6: int = o5 + nw.len() + 1;
    assert(s.len() == 5 + d1.len() + 1 + d2.len() + 1 + aw.len() + 1 + d3.len() + nw.len() + 1
        + d4.len() + ew.len());
    assert(s.subrange(0, s.len() as int) =~= s);
    lemma_embed(s, 0, s, o4, d3);
    lemma_embed_char(s, 0, s, o5);
    if nw.len() > 0 {
        assert(s[o5] == nw[0]);
        assert(nw[0] == ' ');
    } else {
        assert(s[o5] == ' ');
    }
    assert(!is_digit(s[o5]));
    lemma_parse_num_round(s, o4, g.nodes.len() as int);
    lemma_embed(s, 0, s, o5, nw);
    lemma_embed_char(s, 0, s, o5 + nw.len() as int);
    assert(s[o5 + nw.len()] == ' ');
    lemma_ser_nodes_round(s, o5, g.nodes, 0);
    assert(g.nodes.skip(0) =~= g.nodes);
    assert(parse_sp(s, o6 - 1) == Some(o6));
}

/// Parsing the edge list of a rendering.
#[verifier::rlimit(100)]
proof fn lemma_graph_edges_round(g: GraphModel)
    requires
        g.edges.len() <= u64::MAX,
    ensures
        ({
            let s = ser_graph(g);
            let o4 = nodes_count_pos(g);
            let o5 = o4 + dec_digits(g.nodes.len() as int).len() as int;
            let o6 = o5 + ser_nodes_from(g.nodes, 0).len() as int + 1;
            let o7 = o6 + dec_digits(g.edges.len() as int).len() as int;
            &&& parse_u64v(s, o6) == Some((g.edges.len() as u64, o7))
            &&& parse_edges(s, o7, g.edges.len() as nat) == Some((g.edges, s.len() as int))
        }),
{
    reveal_strlit("loom ");
    reveal_strlit(" ");
    assert("loom "@.len() == 5);
    assert(" "@ =~= seq![' ']);
    let s = ser_graph(g);
    let d1 = dec_digits(g.decay as int);
    let d2 = dec_digits(g.tick as int);
    let aw = ser_anchor(g.anchor);
    let d3 = dec_digits(g.nodes.len() as int);
    let nw = ser_nodes_from(g.nodes, 0);
    let d4 = dec_digits(g.edges.len() as int);
    let ew = ser_edges_from(g.edges, 0);
    let o4: int = nodes_count_pos(g);
    let o5: int = o4 + d3.len();
    let o6: int = o5 + nw.len() + 1;
    let o7: int = o6 + d4.len();
    assert(s.len() == 5 + d1.len() + 1 + d2.len() + 1 + aw.len() + 1 + d3.len() + nw.len() + 1
        + d4.len() + ew.len());
    assert(s.subrange(0, s.len() as int) =~= s);
    lemma_embed(s, 0, s, o6, d4);
    if ew.len() > 0 {
        lemma_embed_char(s, 0, s, o7);
        assert(s[o7] == ew[0]);
        assert(ew[0] == ' ');
        assert(!is_digit(s[o7]));
    }
    lemma_parse_num_round(s, o6, g.edges.len() as int);
    lemma_embed(s, 0, s, o7, ew);
    lemma_ser_edges_round(s, o7, g.edges, 0);
    assert(g.edges.skip(0) =~= g.edges);
}

/// Backup round-trip: parsing a graph's rendering yields the graph back,
/// exactly.
pub proof fn law_backup_round_trip(g: GraphModel)
    requires
        forall|q: int| 0 <= q < g.nodes.len() ==> node_fits(#[trigger] g.nodes[q]),
        g.nodes.len() <= u64::MAX,
        g.edges.len() <= u64::MAX,
    ensures
        parse_graph(ser_graph(g)) == Some(g),
{
    lemma_graph_header_round(g);
    lemma_graph_nodes_round(g);
    lemma_graph_edges_round(g);
    let s = ser_graph(g);
    assert(parse_graph(s) == Some(
        GraphModel { nodes: g.nodes, edges: g.edges, tick: g.tick, decay: g.decay, anchor: g.anchor },
    ));
    assert(GraphModel {
        nodes: g.nodes,
        edges: g.edges,
        tick: g.tick,
        decay: g.decay,
        anchor: g.anchor,
    } =~= g);
}

/// Appends a length-prefixed piece of text.
fn append_str(s: &mut String, t: &str)
    ensures
        final(s)@ == old(s)@ + ser_str(t@),
{
    let n: usize = t.unicode_len();
    crate::numfmt::append_decimal(s, n as u128);
    s.append(":");
    s.append(t);
    proof {
        reveal_strlit(":");
        assert(":"@ =~= seq![':']);
        assert(s@ =~= old(s)@ + ser_str(t@));
    }
}

/// Appends a node's shared metadata.
fn append_meta(s: &mut String, m: &NodeMetadata)
    ensures
        final(s)@ == old(s)@ + ser_meta(*m),
{
    crate::numfmt::append_decimal(s, m.id);
    s.append(" ");
    crate::numfmt::append_decimal(s, m.activation as u128);
    s.append(" ");
    crate::numfmt::append_decimal(s, m.stability as u128);
    s.append(" ");
    crate::numfmt::append_decimal(s, m.last_tick as u128);
    proof {
        assert(s@ =~= old(s)@ + ser_meta(*m));
    }
}

/// Appends one node record.
fn append_node(s: &mut String, n: &Node)
    ensures
        final(s)@ == old(s)@ + ser_node(n@),
{
    match n {
        Node::Concept(meta, data) => {
            s.append("c ");
            append_meta(s, meta);
            s.append(" ");
            append_str(s, data.name.as_str());
            s.append(" ");
            append_str(s, data.definition.as_str());
            proof {
                assert(s@ =~= old(s)@ + ser_node(n@));
            }
        },
        Node::Episode(meta, data) => {
            s.append("e ");
            append_meta(s, meta);
            s.append(" ");
            crate::numfmt::append_signed(s, data.timestamp);
            s.append(" ");
            append_str(s, data.summary.as_str());
            proof {
                assert(s@ =~= old(s)@ + ser_node(n@));
            }
        },
        Node::State(meta, data) => {
            s.append("s ");
            append_meta(s, meta);
            s.append(" ");
            crate::numfmt::append_signed(s, data.valence);
            s.append(" ");
            crate::numfmt::append_signed(s, data.arousal);
            proof {
                assert(s@ =~= old(s)@ + ser_node(n@));
            }
        },
    }
}

/// Appends one edge record.
fn append_edge(s: &mut String, e: &Edge)
    ensures
        final(s)@ == old(s)@ + ser_edge(*e),
{
    match e {
        Edge::Preceded(a, b) => {
            s.append("p ");
            crate::numfmt::append_decimal(s, *a);
            s.append(" ");
            crate::numfmt::append_decimal(s, *b);
            proof {
                assert(s@ =~= old(s)@ + ser_edge(*e));
            }
        },
        Edge::Mentioned(a, b) => {
            s.append("m ");
            crate::numfmt::append_decimal(s, *a);
            s.append(" ");
            crate::numfmt::append_decimal(s, *b);
            proof {
                assert(s@ =~= old(s)@ + ser_edge(*e));
            }
        },
        Edge::Evoked(a, b) => {
            s.append("v ");
            crate::numfmt::append_decimal(s, *a);
            s.append(" ");
            crate::numfmt::append_decimal(s, *b);
            proof {
                assert(s@ =~= old(s)@ + ser_edge(*e));
            }
        },
        Edge::Associated(a, b, w) => {
            s.append("a ");
            crate::numfmt::append_decimal(s, *a);
            s.append(" ");
            crate::numfmt::append_decimal(s, *b);
            s.append(" ");
            crate::numfmt::append_signed(s, *w);
            proof {
                assert(s@ =~= old(s)@ + ser_edge(*e));
            }
        },
        Edge::Inhibited(a, b, w) => {
            s.append("i ");
            crate::numfmt::append_decimal(s, *a);
            s.append(" ");
            crate::numfmt::append_decimal(s, *b);
            s.append(" ");
            crate::numfmt::append_signed(s, *w);
            proof {
                assert(s@ =~= old(s)@ + ser_edge(*e));
            }
        },
    }
}

/// Parses a node's shared metadata.
fn parse_meta_exec(s: &Vec<char>, i: usize) -> (r: Option<(NodeMetadata, usize)>)
    requires
        i <= s@.len(),
    ensures
        match r {
            Some((m, j)) => parse_meta(s@, i as int) == Some((m, j as int)) && i < j <= s@.len(),
            None => parse_meta(s@, i as int) is None,
        },
{
    let (id, a) = match parse_num_exec(s, i) {
        Some(x) => x,
        None => {
            return None;
        },
    };
    let b = match expect_char(s, a, ' ') {
        Some(x) => x,
        None => {
            return None;
        },
    };
    let (act128, c) = match parse_num_exec(s, b) {
        Some(x) => x,
        None => {
            return None;
        },
    };
    if act128 > u64::MAX as u128 {
        return None;
    }
    let d = match expect_char(s, c, ' ') {
        Some(x) => x,
        None => {
            return None;
        },
    };
    let (stab128, e) = match parse_num_exec(s, d) {
        Some(x) => x,
        None => {
            return None;
        },
    };
    if stab128 > u64::MAX as u128 {
        return None;
    }
    let f = match expect_char(s, e, ' ') {
        Some(x) => x,
        None => {
            return None;
        },
    };
    let (last128, g0) = match parse_num_exec(s, f) {
        Some(x) => x,
        None => {
            return None;
        },
    };
    if last128 > u64::MAX as u128 {
        return None;
    }
    Some(
        (
            NodeMetadata {
                id,
                activation: act128 as u64,
                stability: stab128 as u64,
                last_tick: last128 as u64,
            },
            g0,
        ),
    )
}

/// Parses one node record.
fn parse_node_exec(s: &Vec<char>, i: usize) -> (r: Option<(Node, usize)>)
    requires
        i <= s@.len(),
    ensures
        match r {
            Some((n, j)) => parse_node(s@, i as int) == Some((n@, j as int)) && i < j <= s@.len(),
            None => parse_node(s@, i as int) is None,
        },
{
    if i >= s.len() {
        return None;
    }
    let kind = s[i];
    let j0 = match expect_char(s, i + 1, ' ') {
        Some(x) => x,
        None => {
            return None;
        },
    };
    let (meta, j1) = match parse_meta_exec(s, j0) {
        Some(x) => x,
        None => {
            return None;
        },
    };
    if kind == 'c' {
        let j2 = match expect_char(s, j1, ' ') {
            Some(x) => x,
            None => {
                return None;
            },
        };
        let (name, j3) = match parse_str_exec(s, j2) {
            Some(x) => x,
            None => {
                return None;
            },
        };
        let j4 = match expect_char(s, j3, ' ') {
            Some(x) => x,
            None => {
                return None;
            },
        };
        let (definition, j5) = match parse_str_exec(s, j4) {
            Some(x) => x,
            None => {
                return None;
            },
        };
        let node = Node::Concept(
            meta,
            crate::node::ConceptData {
                name: crate::text::chars_to_string(&name),
                definition: crate::text::chars_to_string(&definition),
            },
        );
        Some((node, j5))
    } else if kind == 'e' {
        let j2 = match expect_char(s, j1, ' ') {
            Some(x) => x,
            None => {
                return None;
            },
        };
        let (timestamp, j3) = match parse_int_exec(s, j2) {
            Some(x) => x,
            None => {
                return None;
            },
        };
        let j4 = match expect_char(s, j3, ' ') {
            Some(x) => x,
            None => {
                return None;
            },
        };
        let (summary, j5) = match parse_str_exec(s, j4) {
            Some(x) => x,
            None => {
                return None;
            },
        };
        let node = Node::Episode(
            meta,
            crate::node::EpisodeData {
                summary: crate::text::chars_to_string(&summary),
                timestamp,
            },
        );
        Some((node, j5))
    } else if kind == 's' {
        let j2 = match expect_char(s, j1, ' ') {
            Some(x) => x,
            None => {
                return None;
            },
        };
        let (valence, j3) = match parse_int_exec(s, j2) {
            Some(x) => x,
            None => {
                return None;
            },
        };
        let j4 = match expect_char(s, j3, ' ') {
            Some(x) => x,
            None => {
                return None;
            },
        };
        let (arousal, j5) = match parse_int_exec(s, j4) {
            Some(x) => x,
            None => {
                return None;
            },
        };
        let node = Node::State(meta, crate::node::StateData { valence, arousal });
        Some((node, j5))
    } else {
        None
    }
}

/// Parses one edge record.
fn parse_edge_exec(s: &Vec<char>, i: usize) -> (r: Option<(Edge, usize)>)
    requires
        i <= s@.len(),
    ensures
        match r {
            Some((e, j)) => parse_edge(s@, i as int) == Some((e, j as int)) && i < j <= s@.len(),
            None => parse_edge(s@, i as int) is None,
        },
{
    if i >= s.len() {
        return None;
    }
    let kind = s[i];
    if kind != 'p' && kind != 'm' && kind != 'v' && kind != 'a' && kind != 'i' {
        return None;
    }
    let j0 = match expect_char(s, i + 1, ' ') {
        Some(x) => x,
        None => {
            return None;
        },
    };
    let (a, j1) = match parse_num_exec(s, j0) {
        Some(x) => x,
        None => {
            return None;
        },
    };
    let j2 = match expect_char(s, j1, ' ') {
        Some(x) => x,
        None => {
            return None;
        },
    };
    let (b, j3) = match parse_num_exec(s, j2) {
        Some(x) => x,
        None => {
            return None;
        },
    };
    if kind == 'p' {
        Some((Edge::Preceded(a, b), j3))
    } else if kind == 'm' {
        Some((Edge::Mentioned(a, b), j3))
    } else if kind == 'v' {
        Some((Edge::Evoked(a, b), j3))
    } else {
        let j4 = match expect_char(s, j3, ' ') {
            Some(x) => x,
            None => {
                return None;
            },
        };
        let (w, j5) = match parse_int_exec(s, j4) {
            Some(x) => x,
            None => {
                return None;
            },
        };
        if kind == 'a' {
            Some((Edge::Associated(a, b, w), j5))
        } else {
            Some((Edge::Inhibited(a, b, w), j5))
        }
    }
}

/// Glues a parsed prefix onto the outcome of parsing the remaining nodes.
pub open spec fn glue_nodes(
    prefix: Seq<NodeModel>,
    r: Option<(Seq<NodeModel>, int)>,
) -> Option<(Seq<NodeModel>, int)> {
    match r {
        Some((rest, j)) => Some((prefix + rest, j)),
        None => None,
    }
}

/// Glues a parsed prefix onto the outcome of parsing the remaining edges.
pub open spec fn glue_edges(
    prefix: Seq<Edge>,
    r: Option<(Seq<Edge>, int)>,
) -> Option<(Seq<Edge>, int)> {
    match r {
        Some((rest, j)) => Some((prefix + rest, j)),
        None => None,
    }
}

/// Parses `count` nodes.
fn parse_nodes_exec(s: &Vec<char>, i: usize, count: u64) -> (r: Option<(Vec<Node>, usize)>)
    requires
        i <= s@.len(),
    ensures
        match r {
            Some((ns, j)) => parse_nodes(s@, i as int, count as nat) == Some(
                (ns.deep_view(), j as int),
            ) && j <= s@.len(),
            None => parse_nodes(s@, i as int, count as nat) is None,
        },
{
    let mut acc: Vec<Node> = Vec::new();
    let mut cur: usize = i;
    let mut k: u64 = 0;
    proof {
        assert(acc.deep_view() =~= Seq::<NodeModel>::empty());
        assert(glue_nodes(acc.deep_view(), parse_nodes(s@, cur as int, count as nat))
            =~~= parse_nodes(s@, i as int, count as nat)) by {
            match parse_nodes(s@, cur as int, count as nat) {
                Some((rest, j)) => {
                    assert(acc.deep_view() + rest =~= rest);
                },
                None => {},
            }
        };
    }
    while k < count
        invariant
            k <= count,
            i <= cur <= s@.len(),
            parse_nodes(s@, i as int, count as nat) == glue_nodes(
                acc.deep_view(),
                parse_nodes(s@, cur as int, (count - k) as nat),
            ),
        decreases count - k,
    {
        let j = match expect_char(s, cur, ' ') {
            Some(x) => x,
            None => {
                return None;
            },
        };
        let (n, j2) = match parse_node_exec(s, j) {
            Some(x) => x,
            None => {
                return None;
            },
        };
        let ghost prev = acc.deep_view();
        let ghost nm = n@;
        acc.push(n);
        proof {
            assert(acc.deep_view() =~~= prev.push(nm));
            assert(parse_nodes(s@, cur as int, (count - k) as nat) == glue_nodes(
                seq![nm],
                parse_nodes(s@, j2 as int, (count - k - 1) as nat),
            ));
            match parse_nodes(s@, j2 as int, (count - k - 1) as nat) {
                Some((rest, jj)) => {
                    assert(prev + (seq![nm] + rest) =~= prev.push(nm) + rest);
                },
                None => {},
            }
        }
        cur = j2;
        k = k + 1;
    }
    proof {
        assert(parse_nodes(s@, cur as int, 0) == Some((Seq::<NodeModel>::empty(), cur as int)));
        assert(acc.deep_view() + Seq::<NodeModel>::empty() =~= acc.deep_view());
    }
    Some((acc, cur))
}

/// Parses `count` edges.
fn parse_edges_exec(s: &Vec<char>, i: usize, count: u64) -> (r: Option<(Vec<Edge>, usize)>)
    requires
        i <= s@.len(),
    ensures
        match r {
            Some((es, j)) => parse_edges(s@, i as int, count as nat) == Some((es@, j as int)) && j
                <= s@.len(),
            None => parse_edges(s@, i as int, count as nat) is None,
        },
{
    let mut acc: Vec<Edge> = Vec::new();
    let mut cur: usize = i;
    let mut k: u64 = 0;
    proof {
        match parse_edges(s@, cur as int, count as nat) {
            Some((rest, j)) => {
                assert(acc@ + rest =~= rest);
            },
            None => {},
        }
    }
    while k < count
        invariant
            k <= count,
            i <= cur <= s@.len(),
            parse_edges(s@, i as int, count as nat) == glue_edges(
                acc@,
                parse_edges(s@, cur as int, (count - k) as nat),
            ),
        decreases count - k,
    {
        let j = match expect_char(s, cur, ' ') {
            Some(x) => x,
            None => {
                return None;
            },
        };
        let (e, j2) = match parse_edge_exec(s, j) {
            Some(x) => x,
            None => {
                return None;
            },
        };
        let ghost prev = acc@;
        acc.push(e);
        proof {
            assert(parse_edges(s@, cur as int, (count - k) as nat) == glue_edges(
                seq![e],
                parse_edges(s@, j2 as int, (count - k - 1) as nat),
            ));
            match parse_edges(s@, j2 as int, (count - k - 1) as nat) {
                Some((rest, jj)) => {
                    assert(prev + (seq![e] + rest) =~= prev.push(e) + rest);
                },
                None => {},
            }
        }
        cur = j2;
        k = k + 1;
    }
    proof {
        assert(parse_edges(s@, cur as int, 0) == Some((Seq::<Edge>::empty(), cur as int)));
        assert(acc@ + Seq::<Edge>::empty() =~= acc@);
    }
    Some((acc, cur))
}

/// A parsed model the engine can hold: decay in range, scalars valid, no
/// node stamped ahead of the clock, unique identifiers, closed edges.
pub open spec fn valid_model(m: GraphModel) -> bool {
    &&& 0 < m.decay < crate::fixed::SCALE
    &&& crate::graph::nodes_valid(m.nodes, m.tick)
    &&& crate::graph::ids_unique(m.nodes)
    &&& crate::graph::edges_closed(m.nodes, m.edges)
}

/// A well-formed graph's model is valid.
pub proof fn lemma_wf_valid_model(g: LoomGraph)
    requires
        g.wf(),
    ensures
        valid_model(g@),
{
}

/// Backup round-trip for a live graph: its export parses back to exactly
/// its own model, and that model passes import's validation, so importing
/// an export reproduces the node store, the edges and the scalars. The
/// bounds are machine limits: every stored text and both record counts fit
/// the codec's length prefixes.
pub proof fn law_graph_round_trip(g: LoomGraph)
    requires
        g.wf(),
        forall|q: int| 0 <= q < g@.nodes.len() ==> node_fits(#[trigger] g@.nodes[q]),
        g@.nodes.len() <= u64::MAX,
        g@.edges.len() <= u64::MAX,
    ensures
        parse_graph(ser_graph(g@)) == Some(g@),
        valid_model(g@),
{
    lemma_wf_valid_model(g);
    law_backup_round_trip(g@);
}

/// Whether a node's scalars are in range and its stamp is at or before the
/// clock.
fn scalars_ok(n: &Node, tick: u64) -> (r: bool)
    ensures
        r == (n@.valid_scalars() && n@.meta().last_tick <= tick),
{
    let m = n.meta();
    if m.activation > crate::fixed::SCALE {
        return false;
    }
    if m.stability < crate::fixed::MIN_STABILITY {
        return false;
    }
    if m.last_tick > tick {
        return false;
    }
    match n {
        Node::Episode(_, data) => crate::node::TS_MIN <= data.timestamp && data.timestamp
            <= crate::node::TS_MAX,
        Node::Concept(_, _) => true,
        Node::State(_, data) => -(crate::fixed::SCALE as i64) <= data.valence && data.valence
            <= crate::fixed::SCALE as i64 && 0 <= data.arousal && data.arousal
            <= crate::fixed::SCALE as i64,
    }
}

/// Whether a parsed model is one the engine can hold.
fn check_model(nodes: &Vec<Node>, edges: &Vec<Edge>, tick: u64, decay: u64) -> (r: bool)
    ensures
        r == (0 < decay < crate::fixed::SCALE && crate::graph::nodes_valid(
            nodes.deep_view(),
            tick,
        ) && crate::graph::ids_unique(nodes.deep_view()) && crate::graph::edges_closed(
            nodes.deep_view(),
            edges@,
        )),
{
    if !(0 < decay && decay < crate::fixed::SCALE) {
        return false;
    }
    let n = nodes.len();
    let mut k: usize = 0;
    while k < n
        invariant
            n == nodes.deep_view().len(),
            k <= n,
            forall|q: int|
                0 <= q < k ==> (#[trigger] nodes.deep_view()[q]).valid_scalars()
                    && nodes.deep_view()[q].meta().last_tick <= tick,
        decreases n - k,
    {
        if !scalars_ok(&nodes[k], tick) {
            proof {
                assert(!((nodes.deep_view()[k as int]).valid_scalars()
                    && nodes.deep_view()[k as int].meta().last_tick <= tick));
                assert(!crate::graph::nodes_valid(nodes.deep_view(), tick));
            }
            return false;
        }
        k = k + 1;
    }
    let mut a: usize = 0;
    while a < n
        invariant
            n == nodes.deep_view().len(),
            a <= n,
            forall|q: int, q2: int|
                0 <= q < q2 < n && q < a ==> (#[trigger] nodes.deep_view()[q]).node_id() != (
                #[trigger] nodes.deep_view()[q2]).node_id(),
        decreases n - a,
    {
        let ida = nodes[a].meta().id;
        let mut b: usize = a + 1;
        while b < n
            invariant
                n == nodes.deep_view().len(),
                a < b || b == a + 1,
                a < n,
                a + 1 <= b <= n,
                ida == nodes.deep_view()[a as int].node_id(),
                forall|q2: int|
                    a < q2 < b ==> (#[trigger] nodes.deep_view()[q2]).node_id() != ida,
            decreases n - b,
        {
            if nodes[b].meta().id == ida {
                proof {
                    assert(nodes.deep_view()[a as int].node_id() == nodes.deep_view()[
                        b as int].node_id());
                    assert(!crate::graph::ids_unique(nodes.deep_view()));
                }
                return false;
            }
            b = b + 1;
        }
        a = a + 1;
    }
    let ne = edges.len();
    let mut e: usize = 0;
    while e < ne
        invariant
            ne == edges@.len(),
            e <= ne,
            forall|q: int|
                0 <= q < e ==> crate::graph::has_node(
                    nodes.deep_view(),
                    (#[trigger] edges@[q]).src(),
                ) && crate::graph::has_node(nodes.deep_view(), edges@[q].dst()),
        decreases ne - e,
    {
        let (sidv, didv) = edges[e].ends();
        let fs = crate::graph::find_in_nodes(nodes, sidv);
        let ft = crate::graph::find_in_nodes(nodes, didv);
        match (fs, ft) {
            (Some(x), Some(y)) => {
                proof {
                    assert(nodes.deep_view()[x as int].node_id() == sidv);
                    assert(nodes.deep_view()[y as int].node_id() == didv);
                }
            },
            _ => {
                proof {
                    assert(!(crate::graph::has_node(nodes.deep_view(), edges@[e as int].src())
                        && crate::graph::has_node(nodes.deep_view(), edges@[e as int].dst())));
                    assert(!crate::graph::edges_closed(nodes.deep_view(), edges@));
                }
                return false;
            },
        }
        e = e + 1;
    }
    true
}

/// A fresh default graph: empty, at tick zero, with decay 0.95.
pub open spec fn fresh_default(m: GraphModel) -> bool {
    &&& m.nodes.len() == 0
    &&& m.edges.len() == 0
    &&& m.tick == 0
    &&& m.decay == 950_000
    &&& m.anchor is None
}

impl LoomGraph {
    /// Renders the entire graph state as one structured text document.
    pub fn export_backup(&self) -> (r: String)
        ensures
            r@ == ser_graph(self@),
    {
        let mut s = String::new();
        s.append("loom ");
        crate::numfmt::append_decimal(&mut s, self.decay_rate as u128);
        s.append(" ");
        crate::numfmt::append_decimal(&mut s, self.current_tick as u128);
        s.append(" ");
        match self.last_saved {
            None => {
                s.append("n");
            },
            Some(v) => {
                s.append("s ");
                crate::numfmt::append_signed(&mut s, v);
            },
        }
        s.append(" ");
        let nn: usize = self.nodes.len();
        crate::numfmt::append_decimal(&mut s, nn as u128);
        let ghost head = s@;
        let mut k: usize = 0;
        proof {
            assert(head + ser_nodes_from(self@.nodes, 0) =~= s@ + ser_nodes_from(
                self@.nodes,
                0,
            ));
        }
        while k < nn
            invariant
                nn == self@.nodes.len(),
                k <= nn,
                s@ + ser_nodes_from(self@.nodes, k as int) == head + ser_nodes_from(
                    self@.nodes,
                    0,
                ),
            decreases nn - k,
        {
            let ghost before = s@;
            s.append(" ");
            append_node(&mut s, &self.nodes[k]);
            proof {
                assert(ser_nodes_from(self@.nodes, k as int) == " "@ + ser_node(
                    self@.nodes[k as int],
                ) + ser_nodes_from(self@.nodes, k as int + 1));
                assert(s@ + ser_nodes_from(self@.nodes, k as int + 1) =~= before
                    + ser_nodes_from(self@.nodes, k as int));
            }
            k = k + 1;
        }
        proof {
            assert(ser_nodes_from(self@.nodes, nn as int) =~= Seq::<char>::empty());
            assert(s@ =~= head + ser_nodes_from(self@.nodes, 0));
        }
        s.append(" ");
        let ne: usize = self.edges.len();
        crate::numfmt::append_decimal(&mut s, ne as u128);
        let ghost head2 = s@;
        let mut q: usize = 0;
        proof {
            assert(head2 + ser_edges_from(self@.edges, 0) =~= s@ + ser_edges_from(
                self@.edges,
                0,
            ));
        }
        while q < ne
            invariant
                ne == self@.edges.len(),
                q <= ne,
                s@ + ser_edges_from(self@.edges, q as int) == head2 + ser_edges_from(
                    self@.edges,
                    0,
                ),
            decreases ne - q,
        {
            let ghost before = s@;
            s.append(" ");
            append_edge(&mut s, &self.edges[q]);
            proof {
                assert(ser_edges_from(self@.edges, q as int) == " "@ + ser_edge(
                    self@.edges[q as int],
                ) + ser_edges_from(self@.edges, q as int + 1));
                assert(s@ + ser_edges_from(self@.edges, q as int + 1) =~= before
                    + ser_edges_from(self@.edges, q as int));
            }
            q = q + 1;
        }
        proof {
            assert(ser_edges_from(self@.edges, ne as int) =~= Seq::<char>::empty());
            assert(s@ =~= head2 + ser_edges_from(self@.edges, 0));
            assert(s@ =~= ser_graph(self@));
        }
        s
    }

    /// Reads a graph back from a backup document. A document that is not
    /// the canonical rendering of a state the engine can hold yields a
    /// fresh default graph with decay 0.95.
    pub fn import_backup(json: &str) -> (g: LoomGraph)
        ensures
            g.wf(),
            match parse_graph(json@) {
                Some(m) => if valid_model(m) {
                    &&& g@.nodes == m.nodes
                    &&& g@.edges == m.edges
                    &&& g@.tick == m.tick
                    &&& g@.decay == m.decay
                    &&& g@.anchor == m.anchor
                } else {
                    fresh_default(g@)
                },
                None => fresh_default(g@),
            },
    {
        let chars = str_to_chars(json);
        match Self::parse_graph_exec(&chars) {
            Some((nodes, edges, tick, decay, anchor)) => {
                if check_model(&nodes, &edges, tick, decay) {
                    let index = crate::graph::build_index(&nodes);
                    let g = LoomGraph {
                        nodes,
                        edges,
                        current_tick: tick,
                        decay_rate: decay,
                        index,
                        last_saved: anchor,
                    };
                    g
                } else {
                    LoomGraph::new(950_000)
                }
            },
            None => LoomGraph::new(950_000),
        }
    }

    /// Parses a whole backup document.
    fn parse_graph_exec(s: &Vec<char>) -> (r: Option<
        (Vec<Node>, Vec<Edge>, u64, u64, Option<i64>),
    >)
        ensures
            match r {
                Some((ns, es, tick, decay, anchor)) => parse_graph(s@) == Some(
                    GraphModel { nodes: ns.deep_view(), edges: es@, tick, decay, anchor },
                ),
                None => parse_graph(s@) is None,
            },
    {
        if !(s.len() >= 5) {
            return None;
        }
        if !(s[0] == 'l' && s[1] == 'o' && s[2] == 'o' && s[3] == 'm' && s[4] == ' ') {
            return None;
        }
        let (decay128, a) = match parse_num_exec(s, 5) {
            Some(x) => x,
            None => {
                return None;
            },
        };
        if decay128 > u64::MAX as u128 {
            return None;
        }
        let b = match expect_char(s, a, ' ') {
            Some(x) => x,
            None => {
                return None;
            },
        };
        let (tick128, c) = match parse_num_exec(s, b) {
            Some(x) => x,
            None => {
                return None;
            },
        };
        if tick128 > u64::MAX as u128 {
            return None;
        }
        let d = match expect_char(s, c, ' ') {
            Some(x) => x,
            None => {
                return None;
            },
        };
        let (anchor, e0) = match Self::parse_anchor_exec(s, d) {
            Some(x) => x,
            None => {
                return None;
            },
        };
        let f = match expect_char(s, e0, ' ') {
            Some(x) => x,
            None => {
                return None;
            },
        };
        let (ncount128, g0) = match parse_num_exec(s, f) {
            Some(x) => x,
            None => {
                return None;
            },
        };
        if ncount128 > u64::MAX as u128 {
            return None;
        }
        let (nodes, g1) = match parse_nodes_exec(s, g0, ncount128 as u64) {
            Some(x) => x,
            None => {
                return None;
            },
        };
        let g2 = match expect_char(s, g1, ' ') {
            Some(x) => x,
            None => {
                return None;
            },
        };
        let (ecount128, g3) = match parse_num_exec(s, g2) {
            Some(x) => x,
            None => {
                return None;
            },
        };
        if ecount128 > u64::MAX as u128 {
            return None;
        }
        let (edges, g4) = match parse_edges_exec(s, g3, ecount128 as u64) {
            Some(x) => x,
            None => {
                return None;
            },
        };
        if g4 != s.len() {
            return None;
        }
        Some((nodes, edges, tick128 as u64, decay128 as u64, anchor))
    }

    /// Parses the wall-clock anchor.
    fn parse_anchor_exec(s: &Vec<char>, i: usize) -> (r: Option<(Option<i64>, usize)>)
        requires
            i <= s@.len(),
        ensures
            match r {
                Some((a, j)) => parse_anchor(s@, i as int) == Some((a, j as int)) && i < j
                    <= s@.len(),
                None => parse_anchor(s@, i as int) is None,
            },
    {
        if i >= s.len() {
            return None;
        }
        if s[i] == 'n' {
            return Some((None, i + 1));
        }
        if s[i] == 's' {
            let j = match expect_char(s, i + 1, ' ') {
                Some(x) => x,
                None => {
                    return None;
                },
            };
            let (v, j2) = match parse_int_exec(s, j) {
                Some(x) => x,
                None => {
                    return None;
                },
            };
            return Some((Some(v), j2));
        }
        None
    }
}

} // verus!
