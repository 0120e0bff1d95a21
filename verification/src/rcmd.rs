//! Roll commands and roll results.
//!
//! A [`RollCommand`] holds the parameters of a roll: how many dice, and the
//! highest face of each. Evaluating a command with a caller-supplied value
//! source yields a [`RollResult`], the ordered values of the individual dice.

use vstd::prelude::*;
use vstd::std_specs::iter::IteratorSpec;
use vstd::string::StrSliceExecFns;
use vstd::string::StringExecFns;

use crate::digits::dec_seq;
use crate::digits::is_digit;
use crate::digits::digit_val;
use crate::digits::part_digits;
use crate::digits::part_num;
use crate::digits::part_ok;
use crate::digits::part_pending_ok;
use crate::digits::push_decimal;

verus! {

/// The characters of the current, not yet `'d'`-terminated part of a
/// token: what follows the last `'d'`, or the whole token if it has none.
pub open spec fn last_part(s: Seq<char>) -> Seq<char>
    decreases s.len(),
{
    if s.len() == 0 {
        Seq::empty()
    } else if s.last() == 'd' {
        Seq::empty()
    } else {
        last_part(s.drop_last()).push(s.last())
    }
}

/// The value a split part contributes: its numeric value if it parses as
/// a `u32`, nothing otherwise (the part is silently dropped).
pub open spec fn part_values(p: Seq<char>) -> Seq<u32> {
    if part_ok(p) {
        seq![part_num(part_digits(p)) as u32]
    } else {
        Seq::empty()
    }
}

/// The values of the parts already terminated by a `'d'`, in order.
pub open spec fn finished_values(s: Seq<char>) -> Seq<u32>
    decreases s.len(),
{
    if s.len() == 0 {
        Seq::empty()
    } else if s.last() == 'd' {
        finished_values(s.drop_last()) + part_values(last_part(s.drop_last()))
    } else {
        finished_values(s.drop_last())
    }
}

/// The values of all the `'d'`-separated parts of a token that parse as
/// `u32`s, in order.
pub open spec fn token_values(s: Seq<char>) -> Seq<u32> {
    finished_values(s) + part_values(last_part(s))
}

/// What parsing a token yields. The token is split on `'d'`; parts that do
/// not parse as `u32`s (an optional single leading `'+'`, then one or more
/// digits whose value fits) are dropped. Exactly two remaining values make
/// a full command, exactly one makes a single-die command, and any other
/// number of values makes the token invalid.
pub open spec fn parse_spec(s: Seq<char>) -> Option<RollCommand> {
    let vs = token_values(s);
    if vs.len() == 2 {
        Some(RollCommand { count: vs[0], range: vs[1] })
    } else if vs.len() == 1 {
        Some(RollCommand { count: 1, range: vs[0] })
    } else {
        None
    }
}

/// The error message reported for a token that does not parse.
pub open spec fn invalid_msg(s: Seq<char>) -> Seq<char> {
    "Invalid command: "@ + s + "."@
}

/// Extending a token with characters other than `'d'` leaves its finished
/// parts as they are and appends the characters to its last part.
proof fn lemma_extend_no_d(x: Seq<char>, b: Seq<char>)
    requires
        forall|i: int| 0 <= i < b.len() ==> b[i] != 'd',
    ensures
        finished_values(x + b) == finished_values(x),
        last_part(x + b) == last_part(x) + b,
    decreases b.len(),
{
    if b.len() == 0 {
        assert(x + b =~= x);
        assert(last_part(x) + b =~= last_part(x));
    } else {
        lemma_extend_no_d(x, b.drop_last());
        assert((x + b).drop_last() =~= x + b.drop_last());
        assert((x + b).last() == b.last());
        assert(last_part(x + b) == (last_part(x) + b.drop_last()).push(b.last()));
        assert((last_part(x) + b.drop_last()).push(b.last()) =~= last_part(x) + b);
    }
}

/// A decimal rendering contains no `'d'` and is itself a valid part whose
/// value is the rendered number.
proof fn lemma_dec_seq_part(n: u32)
    ensures
        forall|i: int| 0 <= i < dec_seq(n as nat).len() ==> #[trigger] dec_seq(n as nat)[i]
            != 'd',
        part_ok(dec_seq(n as nat)),
        part_values(dec_seq(n as nat)) == seq![n],
{
    crate::digits::lemma_dec_seq_props(n as nat);
    assert(is_digit(dec_seq(n as nat)[0]));
    assert(dec_seq(n as nat)[0] != '+');
    assert(part_digits(dec_seq(n as nat)) == dec_seq(n as nat));
    assert(seq![(part_num(dec_seq(n as nat)) as u32)] =~= seq![n]);
}

/// Parsing a token that is a single rendered number yields the one-die
/// command on that number: for every value `sides`, the token written
/// `"{sides}"` parses as `RollCommand { count: 1, range: sides }`.
pub proof fn lemma_parse_single_token(sides: u32)
    ensures
        parse_spec(dec_seq(sides as nat)) == Some(RollCommand { count: 1, range: sides }),
{
    let b = dec_seq(sides as nat);
    lemma_dec_seq_part(sides);
    lemma_extend_no_d(Seq::empty(), b);
    assert(Seq::empty() + b =~= b);
    assert(last_part(Seq::empty()) + b =~= b);
    assert(token_values(b) =~= seq![sides]);
}

/// Parsing a token made of two rendered numbers joined by `'d'` yields the
/// command with those numbers: for all values `count` and `sides`, the
/// token written `"{count}d{sides}"` parses as
/// `RollCommand { count, range: sides }`.
pub proof fn lemma_parse_full_token(count: u32, sides: u32)
    ensures
        parse_spec(dec_seq(count as nat) + seq!['d'] + dec_seq(sides as nat)) == Some(
            RollCommand { count: count, range: sides },
        ),
{
    let a = dec_seq(count as nat);
    let b = dec_seq(sides as nat);
    let x = a + seq!['d'];
    lemma_dec_seq_part(count);
    lemma_dec_seq_part(sides);
    lemma_extend_no_d(Seq::empty(), a);
    assert(Seq::empty() + a =~= a);
    assert(last_part(Seq::empty()) + a =~= a);
    assert(x.drop_last() =~= a);
    assert(x.last() == 'd');
    assert(finished_values(x) == finished_values(a) + part_values(last_part(a)));
    assert(finished_values(x) =~= seq![count]);
    lemma_extend_no_d(x, b);
    assert(x + b =~= a + seq!['d'] + b);
    assert(last_part(x) + b =~= b);
    assert(token_values(a + seq!['d'] + b) =~= seq![count, sides]);
}

/// Stores roll parameters.
///
/// - `count`: the number of dice to be rolled
/// - `range`: the highest value on each die
#[derive(Debug, PartialEq, Eq, Structural)]
pub struct RollCommand {
    pub count: u32,
    pub range: u32,
}

impl RollCommand {
    /// Constructs a new RollCommand with basic parameters.
    pub fn new(c: u32, r: u32) -> (cmd: RollCommand)
        ensures
            cmd == (RollCommand { count: c, range: r }),
    {
        RollCommand { count: c, range: r }
    }

    /// Generates a RollResult based on a command.
    ///
    /// Each command can be used any number of times; this function will
    /// generate new results each time. It is up to the caller to provide an
    /// appropriate function to generate values: `f` is invoked once per die,
    /// always with the command's range, and whatever it returns becomes the
    /// corresponding element of the result, unvalidated and unclamped.
    pub fn result<F: Fn(u32) -> u32>(&self, f: F) -> (res: RollResult)
        requires
            self.count > 0 ==> call_requires(f, (self.range,)),
        ensures
            res@.len() == self.count,
            forall|i: int|
                0 <= i < res@.len() ==> call_ensures(f, (self.range,), #[trigger] res@[i]),
    {
        let mut rolled: Vec<u32> = Vec::new();
        let mut i: u32 = 0;
        while i < self.count
            invariant
                i <= self.count,
                rolled@.len() == i,
                self.count > 0 ==> call_requires(f, (self.range,)),
                forall|j: int|
                    0 <= j < rolled@.len() ==> call_ensures(f, (self.range,), #[trigger] rolled@[j]),
            decreases self.count - i,
        {
            rolled.push(f(self.range));
            i = i + 1;
        }
        RollResult(rolled)
    }

    /// Converts a string roll command to a roll command struct:
    /// `"2d6"` yields `RollCommand { count: 2, range: 6 }`, and a bare
    /// `"6"` yields one die, `RollCommand { count: 1, range: 6 }`.
    ///
    /// The token is split on `'d'`, parts that do not parse as `u32`s (an
    /// optional single leading `'+'`, then digits whose value fits) are
    /// silently dropped, and the token is rejected exactly when the number
    /// of remaining values is neither one nor two. The result, error
    /// message included, is a function of the token alone.
    pub fn from_str(s: &str) -> (r: Result<RollCommand, String>)
        ensures
            match r {
                Ok(cmd) => parse_spec(s@) == Some(cmd),
                Err(e) => parse_spec(s@) is None && e@ == invalid_msg(s@),
            },
    {
        let n: usize = s.unicode_len();
        let mut vals: Vec<u32> = Vec::new();
        let mut val: u32 = 0;
        let mut started = false;
        let mut has_digit = false;
        let mut good = true;
        let mut i: usize = 0;
        while i < n
            invariant
                n == s@.len(),
                i <= n,
                vals@ == finished_values(s@.take(i as int)),
                started == (last_part(s@.take(i as int)).len() > 0),
                has_digit == (part_digits(last_part(s@.take(i as int))).len() > 0),
                good == part_pending_ok(part_digits(last_part(s@.take(i as int)))),
                good ==> val == part_num(part_digits(last_part(s@.take(i as int)))),
            decreases n - i,
        {
            let ghost t = s@.take(i as int);
            let ghost p = last_part(t);
            let ghost q = part_digits(p);
            let c = s.get_char(i);
            proof {
                assert(s@.take((i + 1) as int) =~= t.push(c));
                assert(t.push(c).drop_last() =~= t);
            }
            if c == 'd' {
                if has_digit && good {
                    vals.push(val);
                }
                val = 0;
                started = false;
                has_digit = false;
                good = true;
                proof {
                    assert(vals@ =~= finished_values(s@.take((i + 1) as int)));
                }
            } else if c == '+' && !started {
                // A part may begin with a single plus sign, which a u32
                // parse accepts and which contributes no digit.
                started = true;
                proof {
                    assert(last_part(s@.take((i + 1) as int)) == p.push(c));
                    assert(p =~= Seq::<char>::empty());
                    assert(p.push(c)[0] == '+');
                    assert(part_digits(p.push(c)) =~= Seq::<char>::empty());
                }
            } else {
                started = true;
                has_digit = true;
                proof {
                    assert(last_part(s@.take((i + 1) as int)) == p.push(c));
                    if p.len() == 0 {
                        assert(p.push(c)[0] == c);
                        assert(part_digits(p.push(c)) =~= q.push(c));
                    } else {
                        assert(p.push(c)[0] == p[0]);
                        if p[0] == '+' {
                            assert(p.push(c).skip(1) =~= p.skip(1).push(c));
                        }
                        assert(part_digits(p.push(c)) =~= q.push(c));
                    }
                    assert(q.push(c).drop_last() =~= q);
                    assert(forall|k: int| 0 <= k < q.len() ==> q.push(c)[k] == q[k]);
                    assert(part_num(q.push(c)) == part_num(q) * 10 + digit_val(c));
                    assert(part_num(q) * 10 >= part_num(q));
                }
                let code: u32 = c as u32;
                if good && 48 <= code && code <= 57 {
                    let d: u32 = code - 48;
                    let wide: u64 = (val as u64) * 10 + (d as u64);
                    proof {
                        assert(is_digit(c) && digit_val(c) == d);
                    }
                    if wide <= u32::MAX as u64 {
                        val = wide as u32;
                        proof {
                            assert(forall|k: int|
                                0 <= k < q.push(c).len() ==> is_digit(#[trigger] q.push(c)[k]));
                            assert(part_pending_ok(q.push(c)));
                        }
                    } else {
                        good = false;
                        proof {
                            assert(part_num(q.push(c)) > u32::MAX);
                            assert(!part_pending_ok(q.push(c)));
                        }
                    }
                } else {
                    good = false;
                    proof {
                        if part_pending_ok(q.push(c)) {
                            assert(is_digit(q.push(c)[q.len() as int]));
                            assert(forall|k: int| 0 <= k < q.len() ==> is_digit(#[trigger] q[k]));
                            assert(part_num(q) <= part_num(q.push(c)));
                            assert(part_pending_ok(q));
                            assert(48 <= code && code <= 57);
                            assert(false);
                        }
                    }
                }
            }
            i = i + 1;
        }
        proof {
            assert(s@.take(n as int) =~= s@);
        }
        if has_digit && good {
            vals.push(val);
        }
        proof {
            assert(vals@ =~= token_values(s@));
        }
        if vals.len() == 2 {
            Ok(RollCommand::new(vals[0], vals[1]))
        } else if vals.len() == 1 {
            Ok(RollCommand::new(1, vals[0]))
        } else {
            let mut e = String::new();
            e.append("Invalid command: ");
            e.append(s);
            e.append(".");
            proof {
                assert(e@ =~= invalid_msg(s@));
            }
            Err(e)
        }
    }
}

impl core::str::FromStr for RollCommand {
    type Err = String;

    /// Parses a token with [`RollCommand::from_str`], so that
    /// `"2d6".parse()` yields the command with count 2 and range 6.
    fn from_str(s: &str) -> Result<RollCommand, String> {
        RollCommand::from_str(s)
    }
}

/// The sum of a sequence of roll values.
pub open spec fn seq_sum(s: Seq<u32>) -> nat
    decreases s.len(),
{
    if s.len() == 0 {
        0
    } else {
        seq_sum(s.drop_last()) + s.last() as nat
    }
}

/// The sum of a prefix never exceeds the sum of the whole sequence.
proof fn lemma_sum_take_le(s: Seq<u32>, j: int)
    requires
        0 <= j <= s.len(),
    ensures
        seq_sum(s.take(j)) <= seq_sum(s),
    decreases s.len() - j,
{
    if j == s.len() {
        assert(s.take(j) =~= s);
    } else {
        assert(s.take(j + 1).drop_last() =~= s.take(j));
        assert(s.take(j + 1).last() == s[j]);
        lemma_sum_take_le(s, j + 1);
    }
}

/// The rendering of a sequence of values: their decimal renderings, in
/// order, joined by the separator `", "`.
pub open spec fn list_chars(s: Seq<u32>) -> Seq<char>
    decreases s.len(),
{
    if s.len() == 0 {
        Seq::empty()
    } else if s.len() == 1 {
        dec_seq(s[0] as nat)
    } else {
        list_chars(s.drop_last()) + seq![',', ' '] + dec_seq(s.last() as nat)
    }
}

/// The full rendering of a result: the joined values, a space, and the
/// total in parentheses. An empty result renders as `" (0)"`.
pub open spec fn spec_format(s: Seq<u32>) -> Seq<char> {
    list_chars(s) + seq![' ', '('] + dec_seq(seq_sum(s)) + seq![')']
}

/// RollResult is a vector of unsigned integers.
///
/// RollResult wraps a vector of unsigned integers representing the result
/// of a roll command once executed. Wrapping the vector allows us to provide
/// specialised function implementations for dealing with roll results.
pub struct RollResult(Vec<u32>);

impl View for RollResult {
    type V = Seq<u32>;

    closed spec fn view(&self) -> Seq<u32> {
        self.0@
    }
}

impl RollResult {
    /// Returns an iterator over the result of a roll.
    ///
    /// This function actually just returns an iterator on the
    /// underlying vector used to store the result values.
    pub fn iter<'a>(&'a self) -> (it: std::slice::Iter<'a, u32>)
        ensures
            it.remaining() == self@.as_ref(),
    {
        self.0.as_slice().iter()
    }

    /// Returns the total value of the roll.
    pub fn total(&self) -> (t: u32)
        requires
            seq_sum(self@) <= u32::MAX,
        ensures
            t == seq_sum(self@),
    {
        let mut t: u32 = 0;
        let n: usize = self.0.len();
        let mut i: usize = 0;
        while i < n
            invariant
                n == self@.len(),
                i <= n,
                seq_sum(self@) <= u32::MAX,
                t == seq_sum(self@.take(i as int)),
            decreases n - i,
        {
            proof {
                lemma_sum_take_le(self@, (i + 1) as int);
                assert(self@.take((i + 1) as int).drop_last() =~= self@.take(i as int));
                assert(self@.take((i + 1) as int).last() == self@[i as int]);
            }
            t = t + self.0[i];
            i = i + 1;
        }
        proof {
            assert(self@.take(n as int) =~= self@);
        }
        t
    }

    /// Returns the rolled values, in roll order.
    pub fn values(&self) -> (v: &[u32])
        ensures
            v@ == self@,
    {
        self.0.as_slice()
    }

    /// Renders the result as the rolled values joined by `", "`, followed
    /// by a space and the total in parentheses: `[1, 2, 3]` renders as
    /// `"1, 2, 3 (6)"`, and the empty result as `" (0)"`.
    pub fn to_string(&self) -> (r: String)
        requires
            seq_sum(self@) <= u32::MAX,
        ensures
            r@ == spec_format(self@),
    {
        let mut r = String::new();
        let n: usize = self.0.len();
        let mut i: usize = 0;
        while i < n
            invariant
                n == self@.len(),
                i <= n,
                seq_sum(self@) <= u32::MAX,
                r@ == list_chars(self@.take(i as int)),
            decreases n - i,
        {
            if i > 0 {
                r.append(", ");
            }
            push_decimal(&mut r, self.0[i]);
            proof {
                reveal_strlit(", ");
                assert(self@.take((i + 1) as int).drop_last() =~= self@.take(i as int));
                assert(self@.take((i + 1) as int).last() == self@[i as int]);
                assert(r@ =~= list_chars(self@.take((i + 1) as int)));
            }
            i = i + 1;
        }
        proof {
            assert(self@.take(n as int) =~= self@);
        }
        let t: u32 = self.total();
        r.append(" (");
        push_decimal(&mut r, t);
        r.append(")");
        proof {
            reveal_strlit(" (");
            reveal_strlit(")");
            assert(r@ =~= spec_format(self@));
        }
        r
    }
}

} // verus!

