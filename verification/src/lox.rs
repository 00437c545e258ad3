use vstd::prelude::*;
use crate::datastructs::token::{Token, TokenType};
use crate::errors::{LexError, ParseError, RuntimeError};
use crate::evaluator::{Cursor, Evaluator, Outcome, Replies, Request, Step, eval, initial_state, show, texts_view};
use crate::parser::{Parser, expression_at, has_eof_from, literals_present};

verus! {

/// The character of a decimal digit.
pub open spec fn digit_char(d: nat) -> char {
    if d == 0 {
        '0'
    } else if d == 1 {
        '1'
    } else if d == 2 {
        '2'
    } else if d == 3 {
        '3'
    } else if d == 4 {
        '4'
    } else if d == 5 {
        '5'
    } else if d == 6 {
        '6'
    } else if d == 7 {
        '7'
    } else if d == 8 {
        '8'
    } else {
        '9'
    }
}

/// The value of a decimal digit character; `None` for other characters.
pub open spec fn digit_value(c: char) -> Option<nat> {
    match c {
        '0' => Some(0),
        '1' => Some(1),
        '2' => Some(2),
        '3' => Some(3),
        '4' => Some(4),
        '5' => Some(5),
        '6' => Some(6),
        '7' => Some(7),
        '8' => Some(8),
        '9' => Some(9),
        _ => None,
    }
}

/// The decimal numeral of `n`.
pub open spec fn decimal_digits(n: nat) -> Seq<char>
    decreases n,
{
    if n < 10 {
        seq![digit_char(n)]
    } else {
        decimal_digits(n / 10).push(digit_char(n % 10))
    }
}

/// The number a decimal numeral stands for.
pub open spec fn numeral_value(s: Seq<char>) -> nat
    decreases s.len(),
{
    if s.len() == 0 {
        0
    } else {
        numeral_value(s.drop_last()) * 10 + match digit_value(s.last()) {
            Some(d) => d,
            None => 0,
        }
    }
}

/// Law: the numeral of `n` is made of decimal digits, has no leading zero, and stands for `n`.
pub proof fn law_decimal_roundtrip(n: nat)
    ensures
        decimal_digits(n).len() >= 1,
        decimal_digits(n).len() == 1 <==> n < 10,
        forall|k: int|
            0 <= k < decimal_digits(n).len() ==> (#[trigger] digit_value(decimal_digits(n)[k])) is Some,
        decimal_digits(n).len() > 1 ==> decimal_digits(n)[0] != '0',
        numeral_value(decimal_digits(n)) == n,
    decreases n,
{
    if n >= 10 {
        law_decimal_roundtrip(n / 10);
        let s = decimal_digits(n);
        assert(s.drop_last() =~= decimal_digits(n / 10));
        assert(s[0] == decimal_digits(n / 10)[0]);
        assert forall|k: int| 0 <= k < s.len() implies (#[trigger] digit_value(s[k])) is Some by {
            if k < s.len() - 1 {
                assert(s[k] == decimal_digits(n / 10)[k]);
            }
        }
        vstd::arithmetic::div_mod::lemma_fundamental_div_mod(n as int, 10);
        assert(1 <= n / 10);
        let d = n % 10;
        assert(digit_value(digit_char(d)) == Some(d));
        assert(s.last() == digit_char(d));
        assert(numeral_value(s) == numeral_value(decimal_digits(n / 10)) * 10 + d);
    } else {
        let s = decimal_digits(n);
        assert(s.drop_last() =~= Seq::<char>::empty());
        assert(numeral_value(s.drop_last()) == 0);
        assert(digit_value(digit_char(n)) == Some(n));
    }
}

/// The line reported for an error: `[line N] Error<where>: <message>`.
pub open spec fn report_text(line: usize, where_: Seq<char>, message: Seq<char>) -> Seq<char> {
    "[line "@ + decimal_digits(line as nat) + "] Error"@ + where_ + ": "@ + message
}

/// Where a parse error stands: at the end of input, or at the text of its token.
pub open spec fn parse_error_where(token: Token) -> Seq<char> {
    if token.token_type == TokenType::Eof {
        " at end"@
    } else {
        " at '"@ + token.lexeme@ + "'"@
    }
}

fn digit_text(d: usize) -> (r: &'static str)
    requires
        d < 10,
    ensures
        r@ == seq![digit_char(d as nat)],
{
    proof {
        reveal_strlit("0");
        reveal_strlit("1");
        reveal_strlit("2");
        reveal_strlit("3");
        reveal_strlit("4");
        reveal_strlit("5");
        reveal_strlit("6");
        reveal_strlit("7");
        reveal_strlit("8");
        reveal_strlit("9");
    }
    match d {
        0 => "0",
        1 => "1",
        2 => "2",
        3 => "3",
        4 => "4",
        5 => "5",
        6 => "6",
        7 => "7",
        8 => "8",
        _ => "9",
    }
}

/// The decimal numeral of `n`.
pub fn decimal(n: usize) -> (r: String)
    ensures
        r@ == decimal_digits(n as nat),
    decreases n,
{
    if n < 10 {
        String::from_str(digit_text(n))
    } else {
        let mut s = decimal(n / 10);
        s.append(digit_text(n % 10));
        s
    }
}

/// How a run of the interpreter stands: finished, or waiting on a request of the evaluator.
pub enum RunStatus {
    Finished,
    Pending(Request),
}

/// The interpreter's driver: it runs source already read into tokens, and keeps the
/// lines to print, the error reports to write, and whether an error or a runtime
/// error has been seen.
pub struct Lox {
    had_error: bool,
    had_runtime_error: bool,
    reports: Vec<String>,
    output: Vec<String>,
}

impl Lox {
    /// An error has been reported.
    pub closed spec fn error_seen(&self) -> bool {
        self.had_error
    }

    /// A runtime error has been reported.
    pub closed spec fn runtime_error_seen(&self) -> bool {
        self.had_runtime_error
    }

    /// The error reports not yet taken, oldest first.
    pub closed spec fn reports(&self) -> Seq<Seq<char>> {
        self.reports@.map_values(|s: String| s@)
    }

    /// The printed lines not yet taken, oldest first.
    pub closed spec fn output(&self) -> Seq<Seq<char>> {
        self.output@.map_values(|s: String| s@)
    }

    pub fn new() -> (l: Lox)
        ensures
            !l.error_seen(),
            !l.runtime_error_seen(),
            l.reports() == Seq::<Seq<char>>::empty(),
            l.output() == Seq::<Seq<char>>::empty(),
    {
        let l = Lox { had_error: false, had_runtime_error: false, reports: Vec::new(), output: Vec::new() };
        assert(l.reports() =~= Seq::<Seq<char>>::empty());
        assert(l.output() =~= Seq::<Seq<char>>::empty());
        l
    }

    fn report(&mut self, line: usize, where_: &str, message: &str)
        ensures
            final(self).error_seen(),
            final(self).runtime_error_seen() == old(self).runtime_error_seen(),
            final(self).reports() == old(self).reports().push(report_text(line, where_@, message@)),
            final(self).output() == old(self).output(),
    {
        let mut text = String::from_str("[line ");
        text.append(decimal(line).as_str());
        text.append("] Error");
        text.append(where_);
        text.append(": ");
        text.append(message);
        proof {
            assert(self.reports@.push(text).map_values(|s: String| s@) =~= self.reports().push(
                text@,
            ));
        }
        self.reports.push(text);
        self.had_error = true;
    }

    fn report_lex_error(&mut self, error: &LexError)
        ensures
            final(self).error_seen(),
            final(self).runtime_error_seen() == old(self).runtime_error_seen(),
            final(self).reports() == old(self).reports().push(
                report_text(error.line, Seq::empty(), error.message@),
            ),
            final(self).output() == old(self).output(),
    {
        proof {
            reveal_strlit("");
        }
        self.report(error.line, "", error.message.as_str());
    }

    fn report_parse_error(&mut self, error: &ParseError)
        ensures
            final(self).error_seen(),
            final(self).runtime_error_seen() == old(self).runtime_error_seen(),
            final(self).reports() == old(self).reports().push(
                report_text(error.token.line, parse_error_where(error.token), error.message@),
            ),
            final(self).output() == old(self).output(),
    {
        let where_ = if error.token.token_type() == TokenType::Eof {
            String::from_str(" at end")
        } else {
            let mut w = String::from_str(" at '");
            w.append(error.token.lexeme());
            w.append("'");
            w
        };
        self.report(error.token.line(), where_.as_str(), error.message.as_str());
    }

    fn report_runtime_error(&mut self, error: &RuntimeError)
        ensures
            final(self).error_seen(),
            final(self).runtime_error_seen(),
            final(self).reports() == old(self).reports().push(
                report_text(error.token.line, Seq::empty(), error.message@),
            ),
            final(self).output() == old(self).output(),
    {
        proof {
            reveal_strlit("");
        }
        self.report(error.token.line(), "", error.message.as_str());
        self.had_runtime_error = true;
    }

    /// `b` reports and holds just what `a` does.
    pub open spec fn same_state(a: Lox, b: Lox) -> bool {
        &&& b.error_seen() == a.error_seen()
        &&& b.runtime_error_seen() == a.runtime_error_seen()
        &&& b.reports() == a.reports()
        &&& b.output() == a.output()
    }

    /// Runs one line or file of source, given as the tokens read from it and the
    /// errors met while reading it. Reading errors are reported and stop the run; else
    /// the tokens are parsed as an expression, a parse error is reported, or the
    /// expression is evaluated and its value printed, or its runtime error reported.
    /// While the evaluation waits on a request the run stands as it was, to be made
    /// again with the reply added.
    pub fn run(&mut self, tokens: Vec<Token>, lex_errors: &Vec<LexError>, replies: &Replies) -> (r: RunStatus)
        requires
            lex_errors@.len() == 0 ==> has_eof_from(tokens@, 0) && literals_present(tokens@),
        ensures
            lex_errors@.len() > 0 ==> {
                &&& r is Finished
                &&& final(self).error_seen()
                &&& final(self).runtime_error_seen() == old(self).runtime_error_seen()
                &&& final(self).reports() == old(self).reports() + lex_errors@.map_values(
                    |e: LexError| report_text(e.line, Seq::empty(), e.message@),
                )
                &&& final(self).output() == old(self).output()
            },
            lex_errors@.len() == 0 ==> match expression_at(tokens@, 0, 0) {
                Err((q, m)) => {
                    &&& r is Finished
                    &&& final(self).error_seen()
                    &&& final(self).runtime_error_seen() == old(self).runtime_error_seen()
                    &&& final(self).reports() == old(self).reports().push(
                        report_text(tokens@[q].line, parse_error_where(tokens@[q]), m),
                    )
                    &&& final(self).output() == old(self).output()
                },
                Ok((e, _, _)) => {
                    let (x, s1) = eval(e, initial_state(), *replies);
                    match x {
                        Step::Done(v) => match show(v, s1.classes, s1.objects, *replies, s1.cursor).0 {
                            Step::Done(text) => {
                                &&& r is Finished
                                &&& final(self).error_seen() == old(self).error_seen()
                                &&& final(self).runtime_error_seen() == old(
                                    self,
                                ).runtime_error_seen()
                                &&& final(self).reports() == old(self).reports()
                                &&& final(self).output() == old(self).output() + s1.out.push(text)
                            },
                            Step::Pending(q) => r == RunStatus::Pending(q) && Lox::same_state(
                                *old(self),
                                *final(self),
                            ),
                            Step::Failed(_, _) => false,
                        },
                        Step::Failed(t, m) => {
                            &&& r is Finished
                            &&& final(self).error_seen()
                            &&& final(self).runtime_error_seen()
                            &&& final(self).reports() == old(self).reports().push(
                                report_text(t.line, Seq::empty(), m),
                            )
                            &&& final(self).output() == old(self).output() + s1.out
                        },
                        Step::Pending(q) => r == RunStatus::Pending(q) && Lox::same_state(
                            *old(self),
                            *final(self),
                        ),
                    }
                },
            },
    {
        if lex_errors.len() > 0 {
            let mut i: usize = 0;
            while i < lex_errors.len()
                invariant
                    i <= lex_errors@.len(),
                    i > 0 ==> self.error_seen(),
                    self.runtime_error_seen() == old(self).runtime_error_seen(),
                    self.reports() == old(self).reports() + lex_errors@.take(i as int).map_values(
                        |e: LexError| report_text(e.line, Seq::empty(), e.message@),
                    ),
                    self.output() == old(self).output(),
                decreases lex_errors@.len() - i,
            {
                self.report_lex_error(&lex_errors[i]);
                proof {
                    let f = |e: LexError| report_text(e.line, Seq::empty(), e.message@);
                    assert(lex_errors@.take(i + 1).map_values(f) =~= lex_errors@.take(
                        i as int,
                    ).map_values(f).push(f(lex_errors@[i as int])));
                }
                i = i + 1;
            }
            assert(lex_errors@.take(i as int) =~= lex_errors@);
            return RunStatus::Finished;
        }
        let mut parser = Parser::new(tokens);
        let expr = match parser.parse() {
            Ok(e) => e,
            Err(error) => {
                self.report_parse_error(&error);
                return RunStatus::Finished;
            },
        };
        let mut evaluator = Evaluator::new();
        let mut cursor = Cursor { numbers: 0, orders: 0, texts: 0, iterations: 0 };
        let mut printed: Vec<String> = Vec::new();
        assert(texts_view(printed@) =~= Seq::<Seq<char>>::empty());
        let o = evaluator.evaluate(&expr, replies, &mut cursor, &mut printed);
        proof {
            evaluator.lemma_state_parts(cursor, texts_view(printed@));
            evaluator.lemma_state_tables(cursor, texts_view(printed@), cursor, Seq::empty());
        }
        match o {
            Outcome::Done(value) => match evaluator.show(&value, replies, &mut cursor) {
                Outcome::Done(text) => {
                    proof {
                        assert((self.output@ + printed@).push(text).map_values(|s: String| s@)
                            =~= self.output() + texts_view(printed@).push(text@));
                    }
                    self.output.append(&mut printed);
                    self.output.push(text);
                    RunStatus::Finished
                },
                Outcome::Pending(q) => RunStatus::Pending(q),
                Outcome::Failed(error) => {
                    assert(false);
                    RunStatus::Finished
                },
            },
            Outcome::Failed(error) => {
                proof {
                    assert((self.output@ + printed@).map_values(|s: String| s@) =~= self.output()
                        + texts_view(printed@));
                }
                self.output.append(&mut printed);
                self.report_runtime_error(&error);
                RunStatus::Finished
            },
            Outcome::Pending(q) => RunStatus::Pending(q),
        }
    }

    pub fn had_error(&self) -> (r: bool)
        ensures
            r == self.error_seen(),
    {
        self.had_error
    }

    pub fn had_runtime_error(&self) -> (r: bool)
        ensures
            r == self.runtime_error_seen(),
    {
        self.had_runtime_error
    }

    /// Forgets the errors seen, as a prompt does before each new line.
    pub fn clear_errors(&mut self)
        ensures
            !final(self).error_seen(),
            !final(self).runtime_error_seen(),
            final(self).reports() == old(self).reports(),
            final(self).output() == old(self).output(),
    {
        self.had_error = false;
        self.had_runtime_error = false;
    }

    /// Hands out the error reports not yet taken, oldest first.
    pub fn take_reports(&mut self) -> (r: Vec<String>)
        ensures
            r@.map_values(|s: String| s@) == old(self).reports(),
            final(self).reports() == Seq::<Seq<char>>::empty(),
            final(self).output() == old(self).output(),
            final(self).error_seen() == old(self).error_seen(),
            final(self).runtime_error_seen() == old(self).runtime_error_seen(),
    {
        let mut r: Vec<String> = Vec::new();
        std::mem::swap(&mut r, &mut self.reports);
        assert(self.reports() =~= Seq::<Seq<char>>::empty());
        r
    }

    /// Hands out the printed lines not yet taken, oldest first.
    pub fn take_output(&mut self) -> (r: Vec<String>)
        ensures
            r@.map_values(|s: String| s@) == old(self).output(),
            final(self).output() == Seq::<Seq<char>>::empty(),
            final(self).reports() == old(self).reports(),
            final(self).error_seen() == old(self).error_seen(),
            final(self).runtime_error_seen() == old(self).runtime_error_seen(),
    {
        let mut r: Vec<String> = Vec::new();
        std::mem::swap(&mut r, &mut self.output);
        assert(self.output() =~= Seq::<Seq<char>>::empty());
        r
    }
}

} // verus!
