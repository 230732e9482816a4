//! The expression compiler: residual-literal parsing, the shunting-yard
//! conversion of an infix sieve expression to postfix token order, and the
//! postfix evaluation that builds a combination tree.

use vstd::prelude::*;

verus! {

use vstd::string::StrSliceExecFns;

use crate::residual::Residual;
use crate::tree::SieveNode;

/// The failure modes of compiling a sieve expression.
#[derive(Clone, Copy, Debug, PartialEq, Eq, Structural)]
pub enum SieveError {
    /// The expression holds a byte that is not a digit, `@`, an operator,
    /// a parenthesis, or whitespace.
    UnsupportedChar(char),
    /// An operand is not of the form `<digits>@<digits>` with both sides
    /// fitting an unsigned 64-bit integer.
    InvalidResidual,
    /// An operator found too few operands on the evaluation stack.
    MissingOperand,
    /// Evaluation did not leave exactly one tree on the stack.
    InvalidExpression,
}

/// A decimal digit.
pub open spec fn is_digit_char(c: char) -> bool {
    48 <= (c as u32) && (c as u32) <= 57
}

/// The numeric value of a decimal digit character.
pub open spec fn digit_val(c: char) -> nat {
    ((c as u32) - 48) as nat
}

/// A character with the Unicode `White_Space` property.
pub open spec fn is_whitespace_char(c: char) -> bool {
    let u = c as u32;
    (9 <= u && u <= 13) || u == 32 || u == 133 || u == 160 || u == 5760 || (8192 <= u && u
        <= 8202) || u == 8232 || u == 8233 || u == 8239 || u == 8287 || u == 12288
}

/// Whether `c` has the Unicode `White_Space` property.
fn whitespace_char(c: char) -> (r: bool)
    ensures
        r == is_whitespace_char(c),
{
    let u = c as u32;
    (9 <= u && u <= 13) || u == 32 || u == 133 || u == 160 || u == 5760 || (8192 <= u && u
        <= 8202) || u == 8232 || u == 8233 || u == 8239 || u == 8287 || u == 12288
}

/// Operator precedence, highest to lowest: `!`, `&`, `^`, `|`; `0` for
/// anything else.
pub open spec fn precedence(op: char) -> int {
    if op == '!' {
        4
    } else if op == '&' {
        3
    } else if op == '^' {
        2
    } else if op == '|' {
        1
    } else {
        0
    }
}

/// Operator precedence for `infix_to_postfix`.
pub fn char_to_precedence(op: char) -> (r: i8)
    ensures
        r == precedence(op),
{
    if op == '!' {
        4
    } else if op == '&' {
        3
    } else if op == '^' {
        2
    } else if op == '|' {
        1
    } else {
        0
    }
}

/// The position of the first `'@'` at or after `i`, or `-1` if there is none.
pub open spec fn first_at_from(s: Seq<char>, i: int) -> int
    decreases s.len() - i,
{
    if i < 0 || i >= s.len() {
        -1
    } else if s[i] == '@' {
        i
    } else {
        first_at_from(s, i + 1)
    }
}

/// Every character of `s` is a decimal digit.
pub open spec fn all_digits(s: Seq<char>) -> bool {
    forall|j: int| 0 <= j < s.len() ==> is_digit_char(#[trigger] s[j])
}

/// The number denoted by a sequence of decimal digits, most significant
/// first.
pub open spec fn dec_value(s: Seq<char>) -> nat
    decreases s.len(),
{
    if s.len() == 0 {
        0
    } else {
        dec_value(s.drop_last()) * 10 + digit_val(s.last())
    }
}

/// A sequence of characters that parses as a `u64`: nonempty, all digits,
/// and a value within range.
pub open spec fn parses_as_u64(s: Seq<char>) -> bool {
    s.len() > 0 && all_digits(s) && dec_value(s) <= u64::MAX
}

/// A well-formed residual literal: exactly one `'@'`, and a parseable number
/// on each side of it.
pub open spec fn valid_residual_literal(s: Seq<char>) -> bool {
    let k = first_at_from(s, 0);
    k >= 0 && first_at_from(s, k + 1) == -1 && parses_as_u64(s.subrange(0, k)) && parses_as_u64(
        s.subrange(k + 1, s.len() as int),
    )
}

/// The modulus segment of a valid residual literal.
pub open spec fn literal_modulus(s: Seq<char>) -> nat {
    dec_value(s.subrange(0, first_at_from(s, 0)))
}

/// The shift segment of a valid residual literal.
pub open spec fn literal_shift(s: Seq<char>) -> nat {
    dec_value(s.subrange(first_at_from(s, 0) + 1, s.len() as int))
}

/// Longer digit prefixes denote numbers at least as large.
proof fn lemma_dec_value_monotone(s: Seq<char>, i: int, j: int)
    requires
        0 <= i <= j <= s.len(),
    ensures
        dec_value(s.subrange(0, i)) <= dec_value(s.subrange(0, j)),
    decreases j - i,
{
    if i < j {
        lemma_dec_value_monotone(s, i, j - 1);
        let t = s.subrange(0, j);
        assert(t.drop_last() =~= s.subrange(0, j - 1));
        assert(dec_value(t) == dec_value(t.drop_last()) * 10 + digit_val(t.last()));
    }
}

/// Parses the characters of `s` in `[start, end)` as a decimal `u64`;
/// `None` when the segment is empty, holds a non-digit, or overflows.
fn parse_u64_segment(s: &str, start: usize, end: usize) -> (r: Option<u64>)
    requires
        start <= end <= s@.len(),
    ensures
        r matches Some(v) ==> parses_as_u64(s@.subrange(start as int, end as int)) && v
            == dec_value(s@.subrange(start as int, end as int)),
        r is None ==> !parses_as_u64(s@.subrange(start as int, end as int)),
{
    let ghost seg = s@.subrange(start as int, end as int);
    if start == end {
        return None;
    }
    let mut acc: u64 = 0;
    let mut i = start;
    while i < end
        invariant
            start <= i <= end <= s@.len(),
            seg == s@.subrange(start as int, end as int),
            all_digits(seg.subrange(0, i - start)),
            acc == dec_value(seg.subrange(0, i - start)),
        decreases end - i,
    {
        let c = s.get_char(i);
        let u = c as u32;
        proof {
            assert(seg[i - start] == s@[i as int]);
        }
        if u < 48 || u > 57 {
            // a non-digit character: the segment is not a number
            assert(!all_digits(seg));
            return None;
        }
        let d = (u - 48) as u64;
        let ghost pre = seg.subrange(0, i - start);
        let ghost pre1 = seg.subrange(0, i + 1 - start);
        proof {
            assert(pre1.drop_last() =~= pre);
            assert(dec_value(pre1) == dec_value(pre) * 10 + digit_val(c));
        }
        if acc > (u64::MAX - d) / 10 {
            // the value exceeds u64::MAX, as every longer prefix then does
            proof {
                assert(acc * 10 + d > u64::MAX) by (nonlinear_arith)
                    requires
                        acc > (u64::MAX - d) / 10,
                        d <= u64::MAX,
                        (u64::MAX - d) / 10 >= 0,
                        u64::MAX - d >= 10 * ((u64::MAX - d) / 10),
                ;
                lemma_dec_value_monotone(seg, i + 1 - start, seg.len() as int);
                assert(seg.subrange(0, seg.len() as int) =~= seg);
            }
            return None;
        }
        proof {
            assert(acc * 10 + d <= u64::MAX) by (nonlinear_arith)
                requires
                    acc <= (u64::MAX - d) / 10,
                    d <= u64::MAX,
                    acc >= 0,
                    u64::MAX - d >= 10 * ((u64::MAX - d) / 10) && 10 * ((u64::MAX - d) / 10)
                        >= (u64::MAX - d) - 9,
            ;
        }
        acc = acc * 10 + d;
        i += 1;
    }
    proof {
        assert(seg.subrange(0, i - start) =~= seg);
    }
    Some(acc)
}

/// Parses a residual literal `"<modulus>@<shift>"` into its two integers.
pub fn residual_to_ints(value: &str) -> (r: Result<(u64, u64), &'static str>)
    ensures
        r matches Ok((m, s)) ==> valid_residual_literal(value@) && m == literal_modulus(value@)
            && s == literal_shift(value@),
        r is Err ==> !valid_residual_literal(value@),
{
    let n = value.unicode_len();
    // find the first '@'
    let mut k: usize = 0;
    while k < n && value.get_char(k) != '@'
        invariant
            0 <= k <= n == value@.len(),
            first_at_from(value@, 0) == first_at_from(value@, k as int),
            forall|j: int| 0 <= j < k ==> value@[j] != '@',
        decreases n - k,
    {
        k += 1;
    }
    if k == n {
        // no '@' at all
        assert(first_at_from(value@, 0) == -1);
        return Err("Input must contain one '@' character separating two numbers.");
    }
    assert(first_at_from(value@, 0) == k as int);
    // make sure there is no second '@'
    let mut j: usize = k + 1;
    while j < n && value.get_char(j) != '@'
        invariant
            k < j <= n == value@.len(),
            first_at_from(value@, k as int + 1) == first_at_from(value@, j as int),
        decreases n - j,
    {
        j += 1;
    }
    if j < n {
        // a second '@'
        assert(first_at_from(value@, k as int + 1) == j as int);
        return Err("Input must contain one '@' character separating two numbers.");
    }
    assert(first_at_from(value@, k as int + 1) == -1);
    let m = match parse_u64_segment(value, 0, k) {
        Some(m) => m,
        None => {
            return Err("Residual error parsing modulus");
        },
    };
    let s = match parse_u64_segment(value, k + 1, n) {
        Some(s) => s,
        None => {
            return Err("Residual error parsing shift");
        },
    };
    Ok((m, s))
}

/// Appends the pending operand, if any, to the output queue.
pub open spec fn flush_operand(out: Seq<Seq<char>>, operand: Seq<char>) -> Seq<Seq<char>> {
    if operand.len() > 0 {
        out.push(operand)
    } else {
        out
    }
}

/// Pops operators of precedence at least that of `c` (stopping at an open
/// parenthesis) into the output queue.
pub open spec fn pop_binary(out: Seq<Seq<char>>, ops: Seq<char>, c: char) -> (Seq<Seq<char>>, Seq<
    char,
>)
    decreases ops.len(),
{
    if ops.len() == 0 {
        (out, ops)
    } else {
        let top = ops.last();
        if top == '(' || precedence(top) < precedence(c) {
            (out, ops)
        } else {
            pop_binary(out.push(seq![top]), ops.drop_last(), c)
        }
    }
}

/// Pops operators into the output queue until a matching open parenthesis is
/// found and discarded, or the stack runs out.
pub open spec fn pop_group(out: Seq<Seq<char>>, ops: Seq<char>) -> (Seq<Seq<char>>, Seq<char>)
    decreases ops.len(),
{
    if ops.len() == 0 {
        (out, ops)
    } else if ops.last() == '(' {
        (out, ops.drop_last())
    } else {
        pop_group(out.push(seq![ops.last()]), ops.drop_last())
    }
}

/// Drains the whole operator stack into the output queue.
pub open spec fn drain_ops(out: Seq<Seq<char>>, ops: Seq<char>) -> Seq<Seq<char>>
    decreases ops.len(),
{
    if ops.len() == 0 {
        out
    } else {
        drain_ops(out.push(seq![ops.last()]), ops.drop_last())
    }
}

/// One step per input character of the shunting-yard conversion, from
/// position `i` with the given output queue, operator stack, and pending
/// operand buffer.
pub open spec fn shunt(
    input: Seq<char>,
    i: int,
    out: Seq<Seq<char>>,
    ops: Seq<char>,
    operand: Seq<char>,
) -> Result<Seq<Seq<char>>, SieveError>
    decreases input.len() - i,
{
    if i < 0 || i >= input.len() {
        Ok(drain_ops(flush_operand(out, operand), ops))
    } else {
        let c = input[i];
        if is_digit_char(c) || c == '@' {
            shunt(input, i + 1, out, ops, operand.push(c))
        } else if c == '!' {
            shunt(input, i + 1, out, ops.push(c), operand)
        } else if c == '|' || c == '&' || c == '^' {
            let r = pop_binary(flush_operand(out, operand), ops, c);
            shunt(input, i + 1, r.0, r.1.push(c), Seq::empty())
        } else if c == '(' {
            shunt(input, i + 1, out, ops.push(c), operand)
        } else if c == ')' {
            let r = pop_group(flush_operand(out, operand), ops);
            shunt(input, i + 1, r.0, r.1, Seq::empty())
        } else if is_whitespace_char(c) {
            shunt(input, i + 1, out, ops, operand)
        } else {
            Err(SieveError::UnsupportedChar(c))
        }
    }
}

/// The postfix token order of an infix sieve expression, or the first
/// unsupported character.
pub open spec fn spec_postfix(input: Seq<char>) -> Result<Seq<Seq<char>>, SieveError> {
    shunt(input, 0, Seq::empty(), Seq::empty(), Seq::empty())
}

/// A character that can stand in a token: a digit, `@`, an operator, or an
/// open parenthesis left on the stack.
pub open spec fn is_token_char(c: char) -> bool {
    is_digit_char(c) || c == '@' || c == '!' || c == '&' || c == '^' || c == '|' || c == '('
}

/// The one-character string for a token character.
fn char_str(c: char) -> (r: &'static str)
    requires
        is_token_char(c),
    ensures
        r@ == seq![c],
{
    match c {
        '0' => {
            proof {
                reveal_strlit("0");
                assert("0"@ =~= seq!['0']);
            }
            "0"
        },
        '1' => {
            proof {
                reveal_strlit("1");
                assert("1"@ =~= seq!['1']);
            }
            "1"
        },
        '2' => {
            proof {
                reveal_strlit("2");
                assert("2"@ =~= seq!['2']);
            }
            "2"
        },
        '3' => {
            proof {
                reveal_strlit("3");
                assert("3"@ =~= seq!['3']);
            }
            "3"
        },
        '4' => {
            proof {
                reveal_strlit("4");
                assert("4"@ =~= seq!['4']);
            }
            "4"
        },
        '5' => {
            proof {
                reveal_strlit("5");
                assert("5"@ =~= seq!['5']);
            }
            "5"
        },
        '6' => {
            proof {
                reveal_strlit("6");
                assert("6"@ =~= seq!['6']);
            }
            "6"
        },
        '7' => {
            proof {
                reveal_strlit("7");
                assert("7"@ =~= seq!['7']);
            }
            "7"
        },
        '8' => {
            proof {
                reveal_strlit("8");
                assert("8"@ =~= seq!['8']);
            }
            "8"
        },
        '9' => {
            proof {
                reveal_strlit("9");
                assert("9"@ =~= seq!['9']);
            }
            "9"
        },
        '@' => {
            proof {
                reveal_strlit("@");
                assert("@"@ =~= seq!['@']);
            }
            "@"
        },
        '!' => {
            proof {
                reveal_strlit("!");
                assert("!"@ =~= seq!['!']);
            }
            "!"
        },
        '&' => {
            proof {
                reveal_strlit("&");
                assert("&"@ =~= seq!['&']);
            }
            "&"
        },
        '^' => {
            proof {
                reveal_strlit("^");
                assert("^"@ =~= seq!['^']);
            }
            "^"
        },
        '|' => {
            proof {
                reveal_strlit("|");
                assert("|"@ =~= seq!['|']);
            }
            "|"
        },
        _ => {
            proof {
                reveal_strlit("(");
                assert("("@ =~= seq!['(']);
                assert(c == '(');
            }
            "("
        },
    }
}

/// Implementation of the shunting-yard algorithm for sieve expressions:
/// converts infix text into a queue of tokens in postfix order, rejecting any
/// character outside the grammar.
pub fn infix_to_postfix(expr: &str) -> (r: Result<Vec<String>, SieveError>)
    ensures
        match spec_postfix(expr@) {
            Ok(toks) => r matches Ok(v) && v.deep_view() == toks,
            Err(e) => r matches Err(e2) && e2 == e,
        },
{
    let n = expr.unicode_len();
    let mut post: Vec<String> = Vec::new();
    let ghost mut gout: Seq<Seq<char>> = Seq::empty();
    let mut operators: Vec<char> = Vec::new();
    let mut operand = String::new();
    let mut i: usize = 0;
    while i < n
        invariant
            i <= n == expr@.len(),
            gout.len() == post@.len(),
            forall|j: int| 0 <= j < gout.len() ==> gout[j] == #[trigger] post@[j]@,
            forall|j: int| 0 <= j < operators@.len() ==> is_token_char(#[trigger] operators@[j]),
            spec_postfix(expr@) == shunt(expr@, i as int, gout, operators@, operand@),
        decreases n - i,
    {
        let c = expr.get_char(i);
        let u = c as u32;
        let ghost out0 = gout;
        let ghost ops0 = operators@;
        let ghost opnd0 = operand@;
        if (48 <= u && u <= 57) || c == '@' {
            operand.append(char_str(c));
            proof {
                assert(operand@ =~= opnd0.push(c));
            }
        } else if c == '!' {
            operators.push(c);
        } else if c == '|' || c == '&' || c == '^' {
            if !operand.as_str().is_empty() {
                post.push(operand);
                proof {
                    gout = gout.push(opnd0);
                }
                operand = String::new();
            }
            proof {
                assert(gout == flush_operand(out0, opnd0));
            }
            let ghost out1 = gout;
            let ghost ops1 = operators@;
            loop
                invariant
                    gout.len() == post@.len(),
                    forall|j: int| 0 <= j < gout.len() ==> gout[j] == #[trigger] post@[j]@,
                    forall|j: int| 0 <= j < operators@.len() ==> is_token_char(
                        #[trigger] operators@[j],
                    ),
                    pop_binary(out1, ops1, c) == pop_binary(gout, operators@, c),
                ensures
                    gout.len() == post@.len(),
                    forall|j: int| 0 <= j < gout.len() ==> gout[j] == #[trigger] post@[j]@,
                    forall|j: int| 0 <= j < operators@.len() ==> is_token_char(
                        #[trigger] operators@[j],
                    ),
                    pop_binary(out1, ops1, c) == (gout, operators@),
                decreases operators@.len(),
            {
                if operators.len() == 0 {
                    break ;
                }
                let top = operators[operators.len() - 1];
                if top == '(' || char_to_precedence(top) < char_to_precedence(c) {
                    break ;
                }
                let t = match operators.pop() {
                    Some(t) => t,
                    None => {
                        proof {
                            assert(false);
                        }
                        c
                    },
                };
                post.push(String::from_str(char_str(t)));
                proof {
                    gout = gout.push(seq![t]);
                }
            }
            operators.push(c);
            operand = String::new();
        } else if c == '(' {
            operators.push(c);
        } else if c == ')' {
            if !operand.as_str().is_empty() {
                post.push(operand);
                proof {
                    gout = gout.push(opnd0);
                }
                operand = String::new();
            }
            proof {
                assert(gout == flush_operand(out0, opnd0));
            }
            let ghost out1 = gout;
            let ghost ops1 = operators@;
            loop
                invariant_except_break
                    pop_group(out1, ops1) == pop_group(gout, operators@),
                invariant
                    gout.len() == post@.len(),
                    forall|j: int| 0 <= j < gout.len() ==> gout[j] == #[trigger] post@[j]@,
                    forall|j: int| 0 <= j < operators@.len() ==> is_token_char(
                        #[trigger] operators@[j],
                    ),
                ensures
                    gout.len() == post@.len(),
                    forall|j: int| 0 <= j < gout.len() ==> gout[j] == #[trigger] post@[j]@,
                    forall|j: int| 0 <= j < operators@.len() ==> is_token_char(
                        #[trigger] operators@[j],
                    ),
                    pop_group(out1, ops1) == (gout, operators@),
                decreases operators@.len(),
            {
                let top = match operators.pop() {
                    Some(t) => t,
                    None => {
                        break ;
                    },
                };
                if top == '(' {
                    break ;
                }
                post.push(String::from_str(char_str(top)));
                proof {
                    gout = gout.push(seq![top]);
                }
            }
            operand = String::new();
        } else if whitespace_char(c) {
            // ignored
        } else {
            proof {
                assert(shunt(expr@, i as int, out0, ops0, opnd0) == Err::<
                    Seq<Seq<char>>,
                    SieveError,
                >(SieveError::UnsupportedChar(c)));
            }
            return Err(SieveError::UnsupportedChar(c));
        }
        proof {
            assert(spec_postfix(expr@) == shunt(expr@, i as int + 1, gout, operators@, operand@));
        }
        i += 1;
    }
    // flush any pending operand
    let ghost out0 = gout;
    let ghost opnd0 = operand@;
    if !operand.as_str().is_empty() {
        post.push(operand);
        proof {
            gout = gout.push(opnd0);
        }
    }
    proof {
        assert(gout == flush_operand(out0, opnd0));
    }
    // drain the remaining operators
    let ghost out1 = gout;
    let ghost ops1 = operators@;
    loop
        invariant
            gout.len() == post@.len(),
            forall|j: int| 0 <= j < gout.len() ==> gout[j] == #[trigger] post@[j]@,
            forall|j: int| 0 <= j < operators@.len() ==> is_token_char(#[trigger] operators@[j]),
            drain_ops(out1, ops1) == drain_ops(gout, operators@),
        ensures
            gout.len() == post@.len(),
            forall|j: int| 0 <= j < gout.len() ==> gout[j] == #[trigger] post@[j]@,
            drain_ops(out1, ops1) == gout,
        decreases operators@.len(),
    {
        let op = match operators.pop() {
            Some(t) => t,
            None => {
                break ;
            },
        };
        post.push(String::from_str(char_str(op)));
        proof {
            gout = gout.push(seq![op]);
        }
    }
    proof {
        assert(post.deep_view() =~= gout);
    }
    Ok(post)
}

/// The residual class that `Residual::new` builds from a parsed literal.
pub open spec fn spec_residual_new(m: nat, s: nat) -> Residual {
    if m == 0 {
        Residual { modulus: 0, shift: 0 }
    } else {
        Residual { modulus: m as u64, shift: (s % m) as u64 }
    }
}

/// Evaluates postfix tokens from position `i` onto a stack of partial trees:
/// an operand pushes a leaf, `!` wraps the top in an inversion, and a binary
/// operator combines the top two (right above left). At the end exactly one
/// tree must remain.
pub open spec fn eval_postfix(toks: Seq<Seq<char>>, i: int, stack: Seq<SieveNode>) -> Result<
    SieveNode,
    SieveError,
>
    decreases toks.len() - i,
{
    if i < 0 || i >= toks.len() {
        if stack.len() == 1 {
            Ok(stack[0])
        } else {
            Err(SieveError::InvalidExpression)
        }
    } else {
        let t = toks[i];
        if t == seq!['!'] {
            if stack.len() < 1 {
                Err(SieveError::MissingOperand)
            } else {
                eval_postfix(
                    toks,
                    i + 1,
                    stack.drop_last().push(SieveNode::Inversion(Box::new(stack.last()))),
                )
            }
        } else if t == seq!['&'] || t == seq!['^'] || t == seq!['|'] {
            if stack.len() < 2 {
                Err(SieveError::MissingOperand)
            } else {
                let right = stack.last();
                let left = stack[stack.len() - 2];
                let node = if t == seq!['&'] {
                    SieveNode::Intersection(Box::new(left), Box::new(right))
                } else if t == seq!['^'] {
                    SieveNode::SymmetricDifference(Box::new(left), Box::new(right))
                } else {
                    SieveNode::Union(Box::new(left), Box::new(right))
                };
                eval_postfix(toks, i + 1, stack.drop_last().drop_last().push(node))
            }
        } else {
            if valid_residual_literal(t) {
                let leaf = SieveNode::Unit(spec_residual_new(literal_modulus(t), literal_shift(t)));
                eval_postfix(toks, i + 1, stack.push(leaf))
            } else {
                Err(SieveError::InvalidResidual)
            }
        }
    }
}

/// The whole compiler: shunting-yard conversion to postfix, then postfix
/// evaluation into a combination tree.
pub open spec fn spec_compile(input: Seq<char>) -> Result<SieveNode, SieveError> {
    match spec_postfix(input) {
        Ok(toks) => eval_postfix(toks, 0, Seq::empty()),
        Err(e) => Err(e),
    }
}

} // verus!
