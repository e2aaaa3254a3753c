//! SVG path string parser — reads the structure of an SVG `d` attribute.
//!
//! Supports the standard SVG path commands M, L, H, V, Q, C, Z and their
//! lowercase relative variants. The parser works on the bytes of the `d`
//! string: it finds the command letters and the number literals, groups the
//! numbers into commands (with implicit repeats, and implicit line-tos after
//! a move-to) and reports every number as the byte range of its literal, so
//! that the caller converts each literal to a coordinate.
use vstd::prelude::*;
use vstd::string::StringSliceAdditionalSpecFns;

verus! {

// ── Byte classes ────────────────────────────────────────────────────────────

/// Separators between tokens: space, comma, tab, line feed, carriage return.
pub open spec fn is_separator(b: u8) -> bool {
    b == 0x20 || b == 0x2C || b == 0x09 || b == 0x0A || b == 0x0D
}

/// The command letters `MmLlHhVvQqCcZz`.
pub open spec fn is_command_byte(b: u8) -> bool {
    ||| b == 0x4D || b == 0x6D  // M m
    ||| b == 0x4C || b == 0x6C  // L l
    ||| b == 0x48 || b == 0x68  // H h
    ||| b == 0x56 || b == 0x76  // V v
    ||| b == 0x51 || b == 0x71  // Q q
    ||| b == 0x43 || b == 0x63  // C c
    ||| b == 0x5A || b == 0x7A  // Z z
}

/// An ASCII decimal digit.
pub open spec fn is_digit(b: u8) -> bool {
    0x30 <= b <= 0x39
}

/// `+` or `-`.
pub open spec fn is_sign(b: u8) -> bool {
    b == 0x2B || b == 0x2D
}

/// A byte that may begin a number literal: a digit, a sign or `.`.
pub open spec fn starts_number(b: u8) -> bool {
    is_digit(b) || is_sign(b) || b == 0x2E
}

// ── Number literals ─────────────────────────────────────────────────────────

/// The end of the run of digits that begins at `p`.
pub open spec fn digits_end(s: Seq<u8>, p: int) -> int
    decreases s.len() - p,
{
    if 0 <= p < s.len() && is_digit(s[p]) {
        digits_end(s, p + 1)
    } else {
        p
    }
}

/// Past an optional sign at `p`.
pub open spec fn sign_end(s: Seq<u8>, p: int) -> int {
    if 0 <= p < s.len() && is_sign(s[p]) {
        p + 1
    } else {
        p
    }
}

/// End of the integer digits of a literal that begins at `p`.
pub open spec fn int_end(s: Seq<u8>, p: int) -> int {
    digits_end(s, sign_end(s, p))
}

/// End of the mantissa (integer digits, then `.` and fraction digits if a
/// `.` follows).
pub open spec fn mantissa_end(s: Seq<u8>, p: int) -> int {
    let q = int_end(s, p);
    if 0 <= q < s.len() && s[q] == 0x2E {
        digits_end(s, q + 1)
    } else {
        q
    }
}

/// An exponent marker `e` or `E` follows the mantissa.
pub open spec fn has_exponent(s: Seq<u8>, p: int) -> bool {
    let q = mantissa_end(s, p);
    0 <= q < s.len() && (s[q] == 0x65 || s[q] == 0x45)
}

/// Where the exponent digits begin (past the marker and its optional sign).
pub open spec fn exponent_digits_start(s: Seq<u8>, p: int) -> int {
    sign_end(s, mantissa_end(s, p) + 1)
}

/// End of the literal that the scanner reads from `p`:
/// `[+-]? digits* ( '.' digits* )? ( [eE] [+-]? digits* )?`.
pub open spec fn number_end(s: Seq<u8>, p: int) -> int {
    if has_exponent(s, p) {
        digits_end(s, exponent_digits_start(s, p))
    } else {
        mantissa_end(s, p)
    }
}

/// The scanned literal is accepted by std's `f32::from_str`, whose documented
/// grammar (after lowercasing) is
/// `Sign? (Digit+ | Digit+ '.' Digit* | Digit* '.' Digit+) ('e' Sign? Digit+)?`:
/// the mantissa has a digit before or after its `.`, and an exponent, when
/// present, has a digit.
pub open spec fn number_parses(s: Seq<u8>, p: int) -> bool {
    &&& (int_end(s, p) > sign_end(s, p) || mantissa_end(s, p) > int_end(s, p) + 1)
    &&& (has_exponent(s, p) ==> number_end(s, p) > exponent_digits_start(s, p))
}

/// A run of digits stays inside the input, holds only digits and is maximal.
pub proof fn lemma_digits_end_bounds(s: Seq<u8>, p: int)
    requires
        0 <= p <= s.len(),
    ensures
        p <= digits_end(s, p) <= s.len(),
        forall|q: int| p <= q < digits_end(s, p) ==> is_digit(#[trigger] s[q]),
        digits_end(s, p) < s.len() ==> !is_digit(s[digits_end(s, p)]),
    decreases s.len() - p,
{
    if p < s.len() && is_digit(s[p]) {
        lemma_digits_end_bounds(s, p + 1);
    }
}

/// A literal that begins with a digit, a sign or `.` covers at least that byte
/// and stays inside the input; its parts follow one another.
pub proof fn lemma_number_end_bounds(s: Seq<u8>, p: int)
    requires
        0 <= p < s.len(),
        starts_number(s[p]),
    ensures
        p < number_end(s, p) <= s.len(),
        sign_end(s, p) <= int_end(s, p) <= mantissa_end(s, p) <= number_end(s, p),
{
    lemma_digits_end_bounds(s, sign_end(s, p));
    let q = int_end(s, p);
    if 0 <= q < s.len() && s[q] == 0x2E {
        lemma_digits_end_bounds(s, q + 1);
    }
    if has_exponent(s, p) {
        lemma_digits_end_bounds(s, exponent_digits_start(s, p));
    }
}

// ── Tokens ──────────────────────────────────────────────────────────────────

/// The byte range `start..end` of a number literal in the `d` string.
#[derive(Debug, Clone, Copy, PartialEq, Eq, Structural)]
pub struct NumberSpan {
    /// First byte of the literal.
    pub start: usize,
    /// One past the last byte of the literal.
    pub end: usize,
}

/// Tokens produced by the SVG path tokenizer.
#[derive(Debug, Clone, Copy, PartialEq, Eq, Structural)]
pub enum Token {
    /// A command letter.
    Command(u8),
    /// A number literal.
    Number(NumberSpan),
}

/// The tokens of `s` from byte `p` on: separators are skipped, command
/// letters become commands, literals that parse become numbers, and any
/// other byte is skipped; a literal that does not parse is skipped together
/// with the byte that follows it.
pub open spec fn tokens_from(s: Seq<u8>, p: int) -> Seq<Token>
    decreases s.len() + 1 - p,
{
    if p < 0 || p >= s.len() {
        seq![]
    } else if is_separator(s[p]) {
        tokens_from(s, p + 1)
    } else if is_command_byte(s[p]) {
        seq![Token::Command(s[p])] + tokens_from(s, p + 1)
    } else if starts_number(s[p]) {
        let e = number_end(s, p);
        proof {
            lemma_number_end_bounds(s, p);
        }
        if number_parses(s, p) {
            seq![Token::Number(NumberSpan { start: p as usize, end: e as usize })] + tokens_from(
                s,
                e,
            )
        } else {
            tokens_from(s, e + 1)
        }
    } else {
        tokens_from(s, p + 1)
    }
}

/// The position past the separators that begin at `p`.
pub open spec fn skip_separators(s: Seq<u8>, p: int) -> int
    decreases s.len() - p,
{
    if 0 <= p < s.len() && is_separator(s[p]) {
        skip_separators(s, p + 1)
    } else {
        p
    }
}

proof fn lemma_skip_separators(s: Seq<u8>, p: int)
    requires
        0 <= p <= s.len(),
    ensures
        p <= skip_separators(s, p) <= s.len(),
        tokens_from(s, skip_separators(s, p)) == tokens_from(s, p),
        skip_separators(s, p) < s.len() ==> !is_separator(s[skip_separators(s, p)]),
    decreases s.len() - p,
{
    if p < s.len() && is_separator(s[p]) {
        lemma_skip_separators(s, p + 1);
    }
}

/// Simple tokenizer for SVG path `d` strings.
pub struct Tokenizer<'a> {
    chars: &'a [u8],
    pos: usize,
}

impl<'a> Tokenizer<'a> {
    /// The bytes being tokenized.
    pub closed spec fn bytes(&self) -> Seq<u8> {
        self.chars@
    }

    /// The position of the next byte to read.
    pub closed spec fn position(&self) -> nat {
        self.pos as nat
    }

    /// The tokens that remain to be read.
    pub open spec fn remaining(&self) -> Seq<Token> {
        tokens_from(self.bytes(), self.position() as int)
    }

    /// A tokenizer positioned at the start of `s`.
    pub fn new(s: &'a str) -> (t: Self)
        ensures
            t.bytes() == s.spec_bytes(),
            t.position() == 0,
    {
        Tokenizer { chars: s.as_bytes(), pos: 0 }
    }

    /// Advance past separators (space, comma, tab, line feed, carriage return).
    pub fn skip_whitespace_and_commas(&mut self)
        requires
            old(self).position() <= old(self).bytes().len(),
        ensures
            final(self).bytes() == old(self).bytes(),
            final(self).position() == skip_separators(old(self).bytes(), old(self).position() as int),
    {
        while self.pos < self.chars.len() && (self.chars[self.pos] == 0x20 || self.chars[self.pos]
            == 0x2C || self.chars[self.pos] == 0x09 || self.chars[self.pos] == 0x0A
            || self.chars[self.pos] == 0x0D)
            invariant
                self.chars@ == old(self).bytes(),
                self.pos <= self.chars@.len(),
                skip_separators(self.chars@, self.pos as int) == skip_separators(
                    old(self).bytes(),
                    old(self).position() as int,
                ),
            decreases self.chars@.len() - self.pos,
        {
            self.pos += 1;
        }
    }

    /// Whether `b` is one of the command letters.
    pub fn is_command(b: u8) -> (r: bool)
        ensures
            r == is_command_byte(b),
    {
        b == 0x4D || b == 0x6D || b == 0x4C || b == 0x6C || b == 0x48 || b == 0x68 || b == 0x56
            || b == 0x76 || b == 0x51 || b == 0x71 || b == 0x43 || b == 0x63 || b == 0x5A || b
            == 0x7A
    }

    fn skip_digits(&mut self)
        requires
            old(self).position() <= old(self).bytes().len(),
        ensures
            final(self).bytes() == old(self).bytes(),
            final(self).position() == digits_end(old(self).bytes(), old(self).position() as int),
    {
        while self.pos < self.chars.len() && self.chars[self.pos] >= 0x30 && self.chars[self.pos]
            <= 0x39
            invariant
                self.chars@ == old(self).bytes(),
                self.pos <= self.chars@.len(),
                digits_end(self.chars@, self.pos as int) == digits_end(
                    old(self).bytes(),
                    old(self).position() as int,
                ),
            decreases self.chars@.len() - self.pos,
        {
            self.pos += 1;
        }
    }

    fn skip_sign(&mut self)
        requires
            old(self).position() <= old(self).bytes().len(),
        ensures
            final(self).bytes() == old(self).bytes(),
            final(self).position() == sign_end(old(self).bytes(), old(self).position() as int),
    {
        if self.pos < self.chars.len() && (self.chars[self.pos] == 0x2D || self.chars[self.pos]
            == 0x2B) {
            self.pos += 1;
        }
    }

    /// Read a number literal starting at the current position. The position
    /// moves to the end of the scanned literal; the literal's byte range is
    /// returned when std's `f32` parser accepts it.
    fn parse_number(&mut self) -> (r: Option<NumberSpan>)
        requires
            old(self).position() < old(self).bytes().len(),
            starts_number(old(self).bytes()[old(self).position() as int]),
        ensures
            final(self).bytes() == old(self).bytes(),
            final(self).position() == number_end(old(self).bytes(), old(self).position() as int),
            r == (if number_parses(old(self).bytes(), old(self).position() as int) {
                Some(
                    NumberSpan {
                        start: old(self).position() as usize,
                        end: final(self).position() as usize,
                    },
                )
            } else {
                None
            }),
    {
        let ghost s = self.chars@;
        let ghost p = self.pos as int;
        proof {
            lemma_number_end_bounds(s, p);
            lemma_digits_end_bounds(s, sign_end(s, p));
        }
        let start = self.pos;
        // optional sign
        self.skip_sign();
        let digits_start = self.pos;
        // integer part
        self.skip_digits();
        let int_digits = self.pos > digits_start;
        let mut frac_digits = false;
        // decimal part
        if self.pos < self.chars.len() && self.chars[self.pos] == 0x2E {
            self.pos += 1;
            let frac_start = self.pos;
            self.skip_digits();
            frac_digits = self.pos > frac_start;
        }
        proof {
            if has_exponent(s, p) {
                lemma_digits_end_bounds(s, mantissa_end(s, p) + 1);
            }
        }
        let mut exp_ok = true;
        // exponent
        if self.pos < self.chars.len() && (self.chars[self.pos] == 0x65 || self.chars[self.pos]
            == 0x45) {
            self.pos += 1;
            self.skip_sign();
            let exp_start = self.pos;
            self.skip_digits();
            exp_ok = self.pos > exp_start;
        }
        if (int_digits || frac_digits) && exp_ok {
            Some(NumberSpan { start, end: self.pos })
        } else {
            None
        }
    }

    /// The next token, or `None` when the input is exhausted.
    pub fn next_token(&mut self) -> (r: Option<Token>)
        requires
            old(self).position() <= old(self).bytes().len(),
        ensures
            final(self).bytes() == old(self).bytes(),
            final(self).position() <= final(self).bytes().len(),
            old(self).remaining() == match r {
                Some(t) => seq![t] + final(self).remaining(),
                None => Seq::<Token>::empty(),
            },
            r is None ==> final(self).remaining() == Seq::<Token>::empty(),
    {
        loop
            invariant
                self.chars@ == old(self).bytes(),
                self.pos <= self.chars@.len(),
                self.remaining() == old(self).remaining(),
            decreases self.chars@.len() - self.pos,
        {
            proof {
                lemma_skip_separators(self.chars@, self.pos as int);
            }
            self.skip_whitespace_and_commas();
            if self.pos >= self.chars.len() {
                return None;
            }
            let b = self.chars[self.pos];
            if Self::is_command(b) {
                self.pos += 1;
                return Some(Token::Command(b));
            }
            // Try to parse a number (starts with digit, '.', '+', or '-')
            if (b >= 0x30 && b <= 0x39) || b == 0x2D || b == 0x2B || b == 0x2E {
                proof {
                    lemma_number_end_bounds(self.chars@, self.pos as int);
                }
                if let Some(n) = self.parse_number() {
                    return Some(Token::Number(n));
                }
                if self.pos >= self.chars.len() {
                    assert(tokens_from(self.chars@, self.pos + 1) == Seq::<Token>::empty());
                    return None;
                }
            }
            // Skip unknown character
            self.pos += 1;
        }
    }
}


// ── Commands ────────────────────────────────────────────────────────────────

/// Number of arguments a command letter takes (`Z`, `z` and other bytes take none).
pub open spec fn spec_args_needed(c: u8) -> nat {
    if c == 0x4D || c == 0x6D || c == 0x4C || c == 0x6C {
        2
    } else if c == 0x48 || c == 0x68 || c == 0x56 || c == 0x76 {
        1
    } else if c == 0x51 || c == 0x71 {
        4
    } else if c == 0x43 || c == 0x63 {
        6
    } else {
        0
    }
}

/// `Z` or `z`.
pub open spec fn is_close_byte(c: u8) -> bool {
    c == 0x5A || c == 0x7A
}

/// The command that further coordinates repeat after `c`: a move-to is
/// followed by implicit line-tos (`M` by `L`, `m` by `l`); any other command
/// repeats itself.
pub open spec fn repeat_command(c: u8) -> u8 {
    if c == 0x4D {
        0x4C
    } else if c == 0x6D {
        0x6C
    } else {
        c
    }
}

/// One command of a path: its letter and the byte ranges of its numbers.
/// A close (`Z`/`z`) has no numbers.
#[derive(Debug, Clone)]
pub struct PathOp {
    /// The command letter that applies (an implicit repeat after a move-to
    /// carries the line-to letter).
    pub command: u8,
    /// The numbers of the command, in order.
    pub args: Vec<NumberSpan>,
}

impl View for PathOp {
    type V = (u8, Seq<NumberSpan>);

    open spec fn view(&self) -> (u8, Seq<NumberSpan>) {
        (self.command, self.args@)
    }
}

/// The parser state between tokens: the command whose numbers are being
/// collected, if any, and the numbers collected so far.
pub type ParseState = (Option<u8>, Seq<NumberSpan>);

/// One token's effect on the parser: the new state and the commands emitted.
///
/// A command letter starts collecting numbers for it (a close is emitted at
/// once and stops collecting). A number is collected; once the current
/// command has all its numbers, the command is emitted with the last ones
/// and collection restarts with the command that repeats it.
pub open spec fn parse_step(st: ParseState, t: Token) -> (ParseState, Seq<(u8, Seq<NumberSpan>)>) {
    match t {
        Token::Command(c) => if is_close_byte(c) {
            ((None, seq![]), seq![(c, Seq::<NumberSpan>::empty())])
        } else {
            ((Some(c), seq![]), seq![])
        },
        Token::Number(n) => {
            let pending = st.1.push(n);
            match st.0 {
                Some(c) => {
                    let needed = spec_args_needed(c);
                    if needed > 0 && pending.len() >= needed {
                        (
                            (Some(repeat_command(c)), seq![]),
                            seq![(c, pending.subrange(pending.len() - needed, pending.len() as int))],
                        )
                    } else {
                        ((Some(c), pending), seq![])
                    }
                },
                None => ((None, pending), seq![]),
            }
        },
    }
}

/// The state and the commands emitted after the first `n` tokens.
pub open spec fn parse_prefix(ts: Seq<Token>, n: int) -> (ParseState, Seq<(u8, Seq<NumberSpan>)>)
    decreases n,
{
    if n <= 0 {
        ((None, seq![]), seq![])
    } else {
        let prev = parse_prefix(ts, n - 1);
        let step = parse_step(prev.0, ts[n - 1]);
        (step.0, prev.1 + step.1)
    }
}

/// The commands of a token sequence.
pub open spec fn parse_tokens(ts: Seq<Token>) -> Seq<(u8, Seq<NumberSpan>)> {
    parse_prefix(ts, ts.len() as int).1
}

/// The commands of the `d` string whose bytes are `s`.
pub open spec fn parse_path(s: Seq<u8>) -> Seq<(u8, Seq<NumberSpan>)> {
    parse_tokens(tokens_from(s, 0))
}

/// Parser for SVG path `d` attribute strings.
#[derive(Debug)]
pub struct SvgPathParser;

impl SvgPathParser {
    /// Number of arguments needed for a given command.
    pub fn args_needed(cmd: u8) -> (r: usize)
        ensures
            r == spec_args_needed(cmd),
    {
        if cmd == 0x4D || cmd == 0x6D || cmd == 0x4C || cmd == 0x6C {
            2
        } else if cmd == 0x48 || cmd == 0x68 || cmd == 0x56 || cmd == 0x76 {
            1
        } else if cmd == 0x51 || cmd == 0x71 {
            4
        } else if cmd == 0x43 || cmd == 0x63 {
            6
        } else {
            0
        }
    }

    /// Parse an SVG path `d` attribute string into its commands.
    ///
    /// Coordinates stay as the byte ranges of their literals in `d`; after
    /// the first pair of a move-to, further pairs are line-tos, and numbers
    /// that come before any command or after a close are ignored.
    pub fn parse_structure(d: &str) -> (ops: Vec<PathOp>)
        ensures
            ops@.map_values(|o: PathOp| o@) == parse_path(d.spec_bytes()),
    {
        let mut tokens = Tokenizer::new(d);
        let ghost all = tokens.remaining();
        let ghost mut done: Seq<Token> = seq![];
        let mut ops: Vec<PathOp> = Vec::new();
        let mut nums: Vec<NumberSpan> = Vec::new();
        let mut current_cmd: Option<u8> = None;
        loop
            invariant
                tokens.position() <= tokens.bytes().len(),
                tokens.bytes() == d.spec_bytes(),
                all == tokens_from(d.spec_bytes(), 0),
                done + tokens.remaining() == all,
                parse_prefix(done, done.len() as int) == (
                    (current_cmd, nums@),
                    ops@.map_values(|o: PathOp| o@),
                ),
                // The numbers collected never reach the count of the current
                // command, so switching commands or reaching the end never
                // leaves a complete set of numbers behind.
                current_cmd matches Some(c) ==> spec_args_needed(c) == 0 || nums@.len()
                    < spec_args_needed(c),
            ensures
                done == all,
            decreases tokens.remaining().len(),
        {
            let ghost before = tokens.remaining();
            let next = tokens.next_token();
            match next {
                None => {
                    assert(done =~= all);
                    break;
                },
                Some(token) => {
                    let ghost prev_ops = ops@.map_values(|o: PathOp| o@);
                    let ghost prev_state = (current_cmd, nums@);
                    match token {
                        Token::Command(c) => {
                            current_cmd = Some(c);
                            nums = Vec::new();
                            if c == 0x5A || c == 0x7A {
                                ops.push(PathOp { command: c, args: Vec::new() });
                                current_cmd = None;
                            }
                        },
                        Token::Number(n) => {
                            nums.push(n);
                            if let Some(cmd) = current_cmd {
                                let needed = Self::args_needed(cmd);
                                if needed > 0 && nums.len() >= needed {
                                    assert(nums@.subrange(
                                        nums@.len() - needed,
                                        nums@.len() as int,
                                    ) =~= nums@);
                                    let args = nums;
                                    nums = Vec::new();
                                    ops.push(PathOp { command: cmd, args });
                                    // After the first M, implicit repeats become L
                                    if cmd == 0x4D {
                                        current_cmd = Some(0x4C);
                                    } else if cmd == 0x6D {
                                        current_cmd = Some(0x6C);
                                    }
                                }
                            }
                        },
                    }
                    proof {
                        let done2 = done.push(token);
                        assert(done2.subrange(0, done.len() as int) =~= done);
                        lemma_parse_prefix_unfold(done2, done);
                        assert(ops@.map_values(|o: PathOp| o@) =~= prev_ops + parse_step(
                            prev_state,
                            token,
                        ).1);
                        assert(done2 + tokens.remaining() =~= done + before);
                        done = done2;
                    }
                },
            }
        }
        ops
    }
}

proof fn lemma_parse_prefix_unfold(ts: Seq<Token>, prefix: Seq<Token>)
    requires
        ts.len() == prefix.len() + 1,
        forall|i: int| 0 <= i < prefix.len() ==> ts[i] == prefix[i],
    ensures
        parse_prefix(ts, ts.len() as int) == ({
            let prev = parse_prefix(prefix, prefix.len() as int);
            let step = parse_step(prev.0, ts[ts.len() - 1]);
            (step.0, prev.1 + step.1)
        }),
{
    lemma_parse_prefix_agree(ts, prefix, prefix.len() as int);
}

proof fn lemma_parse_prefix_agree(a: Seq<Token>, b: Seq<Token>, n: int)
    requires
        0 <= n <= a.len(),
        n <= b.len(),
        forall|i: int| 0 <= i < n ==> a[i] == b[i],
    ensures
        parse_prefix(a, n) == parse_prefix(b, n),
    decreases n,
{
    if n > 0 {
        lemma_parse_prefix_agree(a, b, n - 1);
    }
}


// ── Laws ────────────────────────────────────────────────────────────────────

/// What every token read from byte `p` on satisfies: a command token holds a
/// command letter; a number token is the literal scanned at its start, lies
/// at or after `p` inside the input and parses as an `f32`.
pub open spec fn token_ok(s: Seq<u8>, p: int, t: Token) -> bool {
    match t {
        Token::Command(c) => is_command_byte(c),
        Token::Number(n) => {
            &&& p <= n.start < n.end <= s.len()
            &&& number_end(s, n.start as int) == n.end
            &&& number_parses(s, n.start as int)
        },
    }
}

/// The end of a token's bytes (a command token carries no range; 0 stands for it).
pub open spec fn token_end(t: Token) -> int {
    match t {
        Token::Command(_) => 0,
        Token::Number(n) => n.end as int,
    }
}

/// Tokens hold command letters or literals that parse; the literals lie in
/// the input, in increasing order and without overlapping.
pub proof fn lemma_tokens_well_formed(s: Seq<u8>, p: int)
    requires
        0 <= p,
        s.len() <= usize::MAX,
    ensures
        forall|k: int| 0 <= k < tokens_from(s, p).len() ==> token_ok(s, p, #[trigger] tokens_from(s, p)[k]),
        forall|k1: int, k2: int|
            0 <= k1 < k2 < tokens_from(s, p).len() && (#[trigger] tokens_from(s, p)[k2]) is Number
                ==> token_end(#[trigger] tokens_from(s, p)[k1]) <= tokens_from(s, p)[k2]->Number_0.start,
    decreases s.len() + 1 - p,
{
    let ts = tokens_from(s, p);
    if p >= s.len() {
    } else if is_separator(s[p]) {
        lemma_tokens_well_formed(s, p + 1);
        assert forall|k: int| 0 <= k < ts.len() implies token_ok(s, p, #[trigger] ts[k]) by {
            assert(token_ok(s, p + 1, tokens_from(s, p + 1)[k]));
        }
    } else if is_command_byte(s[p]) {
        let rest = tokens_from(s, p + 1);
        lemma_tokens_well_formed(s, p + 1);
        assert forall|k: int| 0 <= k < ts.len() implies token_ok(s, p, #[trigger] ts[k]) by {
            if k > 0 {
                assert(ts[k] == rest[k - 1]);
                assert(token_ok(s, p + 1, rest[k - 1]));
            }
        }
        assert forall|k1: int, k2: int|
            0 <= k1 < k2 < ts.len() && (#[trigger] ts[k2]) is Number implies token_end(#[trigger] ts[k1])
            <= ts[k2]->Number_0.start by {
            assert(ts[k2] == rest[k2 - 1]);
            assert(token_ok(s, p + 1, rest[k2 - 1]));
            if k1 > 0 {
                assert(ts[k1] == rest[k1 - 1]);
            }
        }
    } else if starts_number(s[p]) {
        let e = number_end(s, p);
        lemma_number_end_bounds(s, p);
        if number_parses(s, p) {
            let rest = tokens_from(s, e);
            lemma_tokens_well_formed(s, e);
            assert forall|k: int| 0 <= k < ts.len() implies token_ok(s, p, #[trigger] ts[k]) by {
                if k > 0 {
                    assert(ts[k] == rest[k - 1]);
                    assert(token_ok(s, e, rest[k - 1]));
                }
            }
            assert forall|k1: int, k2: int|
                0 <= k1 < k2 < ts.len() && (#[trigger] ts[k2]) is Number implies token_end(
                #[trigger] ts[k1],
            ) <= ts[k2]->Number_0.start by {
                assert(ts[k2] == rest[k2 - 1]);
                assert(token_ok(s, e, rest[k2 - 1]));
                if k1 > 0 {
                    assert(ts[k1] == rest[k1 - 1]);
                }
            }
        } else {
            lemma_tokens_well_formed(s, e + 1);
            assert forall|k: int| 0 <= k < ts.len() implies token_ok(s, p, #[trigger] ts[k]) by {
                assert(token_ok(s, e + 1, tokens_from(s, e + 1)[k]));
            }
        }
    } else {
        lemma_tokens_well_formed(s, p + 1);
        assert forall|k: int| 0 <= k < ts.len() implies token_ok(s, p, #[trigger] ts[k]) by {
            assert(token_ok(s, p + 1, tokens_from(s, p + 1)[k]));
        }
    }
}

/// What holds of the parser after any prefix of the tokens: every emitted
/// command is a command letter with exactly the numbers it takes, and every
/// number it holds (emitted or pending) is a number token of the prefix.
pub open spec fn parse_prefix_ok(ts: Seq<Token>, n: int) -> bool {
    let r = parse_prefix(ts, n);
    &&& forall|k: int|
        #![trigger r.1[k]]
        0 <= k < r.1.len() ==> {
            &&& is_command_byte(r.1[k].0)
            &&& r.1[k].1.len() == spec_args_needed(r.1[k].0)
            &&& forall|j: int|
                0 <= j < r.1[k].1.len() ==> ts.take(n).contains(
                    Token::Number(#[trigger] r.1[k].1[j]),
                )
        }
    &&& forall|j: int|
        0 <= j < r.0.1.len() ==> ts.take(n).contains(Token::Number(#[trigger] r.0.1[j]))
}

proof fn lemma_parse_prefix_ok(ts: Seq<Token>, n: int)
    requires
        0 <= n <= ts.len(),
    ensures
        parse_prefix_ok(ts, n),
    decreases n,
{
    if n > 0 {
        lemma_parse_prefix_ok(ts, n - 1);
        let prev = parse_prefix(ts, n - 1);
        let t = ts[n - 1];
        let step = parse_step(prev.0, t);
        let r = parse_prefix(ts, n);
        let pre = ts.take(n - 1);
        let cur = ts.take(n);
        assert forall|x: Token| pre.contains(x) implies cur.contains(x) by {
            let i = choose|i: int| 0 <= i < pre.len() && pre[i] == x;
            assert(cur[i] == x);
        }
        assert(cur[n - 1] == t);
        assert forall|j: int| 0 <= j < r.0.1.len() implies cur.contains(
            Token::Number(#[trigger] r.0.1[j]),
        ) by {
            if let Token::Number(m) = t {
                if j < prev.0.1.len() {
                    assert(r.0.1[j] == prev.0.1[j]);
                    assert(pre.contains(Token::Number(prev.0.1[j])));
                } else {
                    assert(r.0.1[j] == m);
                }
            }
        }
        assert forall|k: int|
            #![trigger r.1[k]]
            0 <= k < r.1.len() implies {
            &&& is_command_byte(r.1[k].0)
            &&& r.1[k].1.len() == spec_args_needed(r.1[k].0)
            &&& forall|j: int|
                0 <= j < r.1[k].1.len() ==> cur.contains(Token::Number(#[trigger] r.1[k].1[j]))
        } by {
            if k < prev.1.len() {
                assert(r.1[k] == prev.1[k]);
                assert forall|j: int| 0 <= j < r.1[k].1.len() implies cur.contains(
                    Token::Number(#[trigger] r.1[k].1[j]),
                ) by {
                    assert(pre.contains(Token::Number(prev.1[k].1[j])));
                }
            } else {
                assert(r.1[k] == step.1[k - prev.1.len()]);
                if let Token::Number(m) = t {
                    let pending = prev.0.1.push(m);
                    let c = prev.0.0->Some_0;
                    let needed = spec_args_needed(c);
                    assert forall|j: int| 0 <= j < r.1[k].1.len() implies cur.contains(
                        Token::Number(#[trigger] r.1[k].1[j]),
                    ) by {
                        let jj = j + pending.len() - needed;
                        assert(r.1[k].1[j] == pending[jj]);
                        if jj < prev.0.1.len() {
                            assert(pre.contains(Token::Number(prev.0.1[jj])));
                        }
                    }
                }
            }
        }
    }
}

/// Every command the parser produces is a command letter with exactly the
/// number of coordinates that letter takes (none for a close), and each of
/// those coordinates is a literal of the input that parses as an `f32`.
pub proof fn lemma_parse_path_well_formed(s: Seq<u8>)
    requires
        s.len() <= usize::MAX,
    ensures
        forall|k: int|
            #![trigger parse_path(s)[k]]
            0 <= k < parse_path(s).len() ==> {
                &&& is_command_byte(parse_path(s)[k].0)
                &&& parse_path(s)[k].1.len() == spec_args_needed(parse_path(s)[k].0)
                &&& forall|j: int|
                    0 <= j < parse_path(s)[k].1.len() ==> {
                        let n = #[trigger] parse_path(s)[k].1[j];
                        &&& n.start < n.end <= s.len()
                        &&& number_end(s, n.start as int) == n.end
                        &&& number_parses(s, n.start as int)
                    }
            },
{
    let ts = tokens_from(s, 0);
    lemma_tokens_well_formed(s, 0);
    lemma_parse_prefix_ok(ts, ts.len() as int);
    assert(ts.take(ts.len() as int) =~= ts);
    let ops = parse_path(s);
    assert forall|k: int, j: int| 0 <= k < ops.len() && 0 <= j < ops[k].1.len() implies {
        let n = #[trigger] ops[k].1[j];
        &&& n.start < n.end <= s.len()
        &&& number_end(s, n.start as int) == n.end
        &&& number_parses(s, n.start as int)
    } by {
        assert(ops[k] == ops[k]);
        assert(ts.contains(Token::Number(ops[k].1[j])));
        let i = choose|i: int| 0 <= i < ts.len() && ts[i] == Token::Number(ops[k].1[j]);
        assert(token_ok(s, 0, ts[i]));
    }
}

// ── Implicit repeats ────────────────────────────────────────────────────────

/// The number tokens of a run of literals, in order.
pub open spec fn number_run(s: Seq<NumberSpan>) -> Seq<Token> {
    s.map_values(|n: NumberSpan| Token::Number(n))
}

/// The number tokens of consecutive runs of literals, run after run.
pub open spec fn number_runs(runs: Seq<Seq<NumberSpan>>) -> Seq<Token>
    decreases runs.len(),
{
    if runs.len() == 0 {
        seq![]
    } else {
        number_runs(runs.drop_last()) + number_run(runs.last())
    }
}

/// The state and the commands after the tokens `ts`, from the state `st`.
spec fn parse_from(st: ParseState, ts: Seq<Token>) -> (ParseState, Seq<(u8, Seq<NumberSpan>)>)
    decreases ts.len(),
{
    if ts.len() == 0 {
        (st, seq![])
    } else {
        let prev = parse_from(st, ts.drop_last());
        let step = parse_step(prev.0, ts.last());
        (step.0, prev.1 + step.1)
    }
}

/// The commands that runs of numbers give after the letter `c`: the first
/// run goes to `c`, the later ones to the command that repeats it.
spec fn repeated_ops(c: u8, runs: Seq<Seq<NumberSpan>>) -> Seq<(u8, Seq<NumberSpan>)> {
    Seq::new(runs.len(), |j: int| (if j == 0 { c } else { repeat_command(c) }, runs[j]))
}

proof fn lemma_parse_prefix_from(ts: Seq<Token>, n: int)
    requires
        0 <= n <= ts.len(),
    ensures
        parse_prefix(ts, n) == parse_from((None, Seq::<NumberSpan>::empty()), ts.take(n)),
    decreases n,
{
    if n > 0 {
        lemma_parse_prefix_from(ts, n - 1);
        assert(ts.take(n).drop_last() =~= ts.take(n - 1));
        assert(ts.take(n).last() == ts[n - 1]);
    } else {
        assert(ts.take(0) =~= Seq::<Token>::empty());
    }
}

proof fn lemma_parse_from_append(st: ParseState, a: Seq<Token>, b: Seq<Token>)
    ensures
        parse_from(st, a + b).0 == parse_from(parse_from(st, a).0, b).0,
        parse_from(st, a + b).1 == parse_from(st, a).1 + parse_from(parse_from(st, a).0, b).1,
    decreases b.len(),
{
    let m = parse_from(st, a);
    if b.len() == 0 {
        assert(a + b =~= a);
        assert(m.1 + parse_from(m.0, b).1 =~= m.1);
    } else {
        lemma_parse_from_append(st, a, b.drop_last());
        assert((a + b).drop_last() =~= a + b.drop_last());
        assert((a + b).last() == b.last());
        let r = parse_from(m.0, b.drop_last());
        let step = parse_step(r.0, b.last());
        assert(m.1 + r.1 + step.1 =~= m.1 + (r.1 + step.1));
    }
}

proof fn lemma_collect_partial(d: u8, s: Seq<NumberSpan>)
    requires
        s.len() < spec_args_needed(d),
    ensures
        parse_from((Some(d), Seq::<NumberSpan>::empty()), number_run(s)).0 == (Some(d), s),
        parse_from((Some(d), Seq::<NumberSpan>::empty()), number_run(s)).1.len() == 0,
    decreases s.len(),
{
    if s.len() == 0 {
        assert(number_run(s) =~= Seq::<Token>::empty());
        assert(s =~= Seq::<NumberSpan>::empty());
    } else {
        lemma_collect_partial(d, s.drop_last());
        assert(number_run(s).drop_last() =~= number_run(s.drop_last()));
        assert(number_run(s).last() == Token::Number(s.last()));
        assert(s.drop_last().push(s.last()) =~= s);
    }
}

proof fn lemma_collect_run(d: u8, s: Seq<NumberSpan>)
    requires
        spec_args_needed(d) > 0,
        s.len() == spec_args_needed(d),
    ensures
        parse_from((Some(d), Seq::<NumberSpan>::empty()), number_run(s)).0 == (
            Some(repeat_command(d)),
            Seq::<NumberSpan>::empty(),
        ),
        parse_from((Some(d), Seq::<NumberSpan>::empty()), number_run(s)).1 == seq![(d, s)],
{
    lemma_collect_partial(d, s.drop_last());
    assert(number_run(s).drop_last() =~= number_run(s.drop_last()));
    assert(number_run(s).last() == Token::Number(s.last()));
    let pending = s.drop_last().push(s.last());
    assert(pending =~= s);
    assert(pending.subrange(pending.len() - spec_args_needed(d), pending.len() as int) =~= s);
    let prev = parse_from((Some(d), Seq::<NumberSpan>::empty()), number_run(s).drop_last());
    assert(prev.1 + seq![(d, s)] =~= seq![(d, s)]);
}

proof fn lemma_collect_runs(c: u8, runs: Seq<Seq<NumberSpan>>)
    requires
        spec_args_needed(c) > 0,
        forall|j: int| 0 <= j < runs.len() ==> (#[trigger] runs[j]).len() == spec_args_needed(c),
    ensures
        parse_from((Some(c), Seq::<NumberSpan>::empty()), number_runs(runs)).0 == (
            Some(if runs.len() == 0 { c } else { repeat_command(c) }),
            Seq::<NumberSpan>::empty(),
        ),
        parse_from((Some(c), Seq::<NumberSpan>::empty()), number_runs(runs)).1 == repeated_ops(c, runs),
    decreases runs.len(),
{
    let st = (Some(c), Seq::<NumberSpan>::empty());
    if runs.len() == 0 {
        assert(repeated_ops(c, runs) =~= Seq::<(u8, Seq<NumberSpan>)>::empty());
    } else {
        let init = runs.drop_last();
        lemma_collect_runs(c, init);
        let d = if init.len() == 0 { c } else { repeat_command(c) };
        assert(spec_args_needed(d) == spec_args_needed(c));
        assert(runs.last() == runs[runs.len() - 1]);
        lemma_collect_run(d, runs.last());
        lemma_parse_from_append(st, number_runs(init), number_run(runs.last()));
        assert(repeat_command(d) == repeat_command(c));
        assert(repeated_ops(c, runs) =~= repeated_ops(c, init) + seq![(d, runs.last())]);
    }
}

proof fn lemma_collect_ignored(p: Seq<NumberSpan>, s: Seq<NumberSpan>)
    ensures
        parse_from((None, p), number_run(s)).0 == (None::<u8>, p + s),
        parse_from((None, p), number_run(s)).1.len() == 0,
    decreases s.len(),
{
    if s.len() == 0 {
        assert(number_run(s) =~= Seq::<Token>::empty());
        assert(p + s =~= p);
    } else {
        lemma_collect_ignored(p, s.drop_last());
        assert(number_run(s).drop_last() =~= number_run(s.drop_last()));
        assert(number_run(s).last() == Token::Number(s.last()));
        assert((p + s.drop_last()).push(s.last()) =~= p + s);
    }
}

/// Implicit repeats: after a command letter `c` that takes `n > 0` numbers,
/// every further run of `n` numbers is one more command with those `n`
/// numbers in order, so `k` runs give `k` commands and no run is dropped.
/// The first command carries `c`; the later ones carry `c` again, except
/// after a move-to, where they are line-tos (`M` then `L`, `m` then `l`).
/// Numbers left over at the end, fewer than `n`, give no command.
pub proof fn lemma_implicit_repeats(c: u8, runs: Seq<Seq<NumberSpan>>, rest: Seq<NumberSpan>)
    requires
        spec_args_needed(c) > 0,
        forall|j: int| 0 <= j < runs.len() ==> (#[trigger] runs[j]).len() == spec_args_needed(c),
        rest.len() < spec_args_needed(c),
    ensures
        ({
            let ops = parse_tokens(seq![Token::Command(c)] + number_runs(runs) + number_run(rest));
            &&& ops.len() == runs.len()
            &&& forall|j: int| 0 <= j < runs.len() ==> (#[trigger] ops[j]).1 == runs[j]
            &&& forall|j: int|
                0 <= j < runs.len() ==> (#[trigger] ops[j]).0 == (if j == 0 || (c != 0x4D && c
                    != 0x6D) {
                    c
                } else if c == 0x4D {
                    0x4Cu8
                } else {
                    0x6Cu8
                })
        }),
{
    let init = (None::<u8>, Seq::<NumberSpan>::empty());
    let head = seq![Token::Command(c)];
    let body = number_runs(runs);
    let ts = head + body + number_run(rest);
    lemma_parse_prefix_from(ts, ts.len() as int);
    assert(ts.take(ts.len() as int) =~= ts);
    lemma_parse_from_append(init, head + body, number_run(rest));
    lemma_parse_from_append(init, head, body);
    assert(head.drop_last() =~= Seq::<Token>::empty());
    let after_head = parse_from(init, head);
    let none_yet = parse_from(init, head.drop_last());
    assert(none_yet.1.len() == 0);
    assert(head.last() == Token::Command(c));
    assert(after_head.0 == (Some(c), Seq::<NumberSpan>::empty()));
    assert(after_head.1 =~= Seq::<(u8, Seq<NumberSpan>)>::empty());
    lemma_collect_runs(c, runs);
    let d = if runs.len() == 0 { c } else { repeat_command(c) };
    assert(spec_args_needed(d) == spec_args_needed(c));
    lemma_collect_partial(d, rest);
    let ops = parse_tokens(ts);
    let mid = parse_from(init, head + body);
    assert(mid.1 =~= repeated_ops(c, runs));
    assert(ops =~= repeated_ops(c, runs) + parse_from(mid.0, number_run(rest)).1);
    assert(ops =~= repeated_ops(c, runs));
}

/// A close letter gives one command with no numbers, and the numbers that
/// follow it, up to the next command letter, give no command.
pub proof fn lemma_close_ignores_numbers(z: u8, rest: Seq<NumberSpan>)
    requires
        is_close_byte(z),
    ensures
        parse_tokens(seq![Token::Command(z)] + number_run(rest)) == seq![(z, Seq::<NumberSpan>::empty())],
{
    let init = (None::<u8>, Seq::<NumberSpan>::empty());
    let head = seq![Token::Command(z)];
    let ts = head + number_run(rest);
    lemma_parse_prefix_from(ts, ts.len() as int);
    assert(ts.take(ts.len() as int) =~= ts);
    lemma_parse_from_append(init, head, number_run(rest));
    assert(head.drop_last() =~= Seq::<Token>::empty());
    let after_head = parse_from(init, head);
    let none_yet = parse_from(init, head.drop_last());
    assert(none_yet.1.len() == 0);
    assert(head.last() == Token::Command(z));
    assert(after_head.0 == (None::<u8>, Seq::<NumberSpan>::empty()));
    assert(after_head.1 =~= seq![(z, Seq::<NumberSpan>::empty())]);
    lemma_collect_ignored(Seq::<NumberSpan>::empty(), rest);
    assert(parse_tokens(ts) =~= seq![(z, Seq::<NumberSpan>::empty())]);
}

} // verus!
