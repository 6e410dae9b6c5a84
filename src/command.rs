use vstd::prelude::*;

verus! {

/// A line typed by a player, read as an instruction.
#[derive(Debug, PartialEq, Eq)]
pub enum Command {
    Quit,
    UnknownCommand(String),
    /// A cup number, counted from one.
    Play(usize),
}

/// What `str::trim` leaves of a text: it without its leading and trailing
/// white space.
pub uninterp spec fn trimmed(s: Seq<char>) -> Seq<char>;

/// Relies on `str::trim`, which removes leading and trailing white space.
#[verifier::external_body]
fn trim(s: &str) -> (r: &str)
    ensures
        r@ == trimmed(s@),
{
    s.trim()
}

pub open spec fn is_digit(c: char) -> bool {
    48 <= (c as u32) <= 57
}

pub open spec fn digit_value(c: char) -> nat {
    ((c as u32) - 48) as nat
}

/// The number that a run of decimal digits writes.
pub open spec fn digits_value(s: Seq<char>) -> nat
    decreases s.len(),
{
    if s.len() == 0 {
        0
    } else {
        digits_value(s.drop_last()) * 10 + digit_value(s.last())
    }
}

/// Every character is a decimal digit.
pub open spec fn all_digits(s: Seq<char>) -> bool {
    forall|i: int| 0 <= i < s.len() ==> is_digit(#[trigger] s[i])
}

/// A text without the `+` sign that may lead it.
pub open spec fn unsigned(s: Seq<char>) -> Seq<char> {
    if s.len() > 0 && s[0] == '+' {
        s.drop_first()
    } else {
        s
    }
}

/// An unsigned number as it is written: an optional `+`, then one or more
/// decimal digits.
pub open spec fn number_of(s: Seq<char>) -> Option<nat> {
    if unsigned(s).len() > 0 && all_digits(unsigned(s)) {
        Some(digits_value(unsigned(s)))
    } else {
        None
    }
}

/// A longer run of leading digits never writes a smaller number.
proof fn lemma_digits_grow(s: Seq<char>, i: int, j: int)
    requires
        0 <= i <= j <= s.len(),
    ensures
        digits_value(s.subrange(0, i)) <= digits_value(s.subrange(0, j)),
    decreases j - i,
{
    if i < j {
        lemma_digits_grow(s, i, j - 1);
        assert(s.subrange(0, j).drop_last() =~= s.subrange(0, j - 1));
    }
}

/// Reads a run of decimal digits; `None` where the number does not fit in a
/// `usize`.
fn digits_number(s: &str, from: usize) -> (r: Option<usize>)
    requires
        from <= s@.len(),
        forall|i: int| from <= i < s@.len() ==> is_digit(#[trigger] s@[i]),
    ensures
        match r {
            Some(n) => n == digits_value(s@.subrange(from as int, s@.len() as int)),
            None => digits_value(s@.subrange(from as int, s@.len() as int)) > usize::MAX,
        },
{
    let n = s.unicode_len();
    let ghost body = s@.subrange(from as int, s@.len() as int);
    let mut value: usize = 0;
    let mut i = from;
    while i < n
        invariant
            n == s@.len(),
            from <= i <= n,
            body == s@.subrange(from as int, n as int),
            forall|k: int| from <= k < n ==> is_digit(#[trigger] s@[k]),
            value == digits_value(body.subrange(0, i - from)),
        decreases n - i,
    {
        let c = s.get_char(i);
        assert(is_digit(s@[i as int]));
        let d = (c as u32 - 48) as usize;
        assert(body.subrange(0, i + 1 - from).drop_last() =~= body.subrange(0, i - from));
        assert(body[i - from] == c);
        if value > (usize::MAX - d) / 10 {
            proof {
                assert(value * 10 + d > usize::MAX) by (nonlinear_arith)
                    requires
                        value > (usize::MAX - d) / 10,
                        d <= 9,
                ;
                lemma_digits_grow(body, i + 1 - from, body.len() as int);
                assert(body.subrange(0, body.len() as int) =~= body);
            }
            return None;
        }
        assert(value * 10 + d <= usize::MAX) by (nonlinear_arith)
            requires
                value <= (usize::MAX - d) / 10,
                d <= 9,
        ;
        value = value * 10 + d;
        i = i + 1;
    }
    assert(body.subrange(0, n - from) =~= body);
    Some(value)
}

/// Reads a typed line: `quit`, a cup number, or anything else, which is
/// kept, without its surrounding white space, as an unknown command.
pub fn string_to_command(string: String) -> (r: Command)
    ensures
        ({
            let t = trimmed(string@);
            if t == "quit"@ {
                r == Command::Quit
            } else if number_of(t) is Some && number_of(t)->Some_0 <= usize::MAX {
                r == Command::Play(number_of(t)->Some_0 as usize)
            } else {
                r matches Command::UnknownCommand(u) && u@ == t
            }
        }),
{
    let t = trim(string.as_str());
    let word = String::from_str(t);
    let quit = String::from_str("quit");
    if word == quit {
        return Command::Quit;
    }
    assert(t@ != "quit"@);
    let n = t.unicode_len();
    let from: usize = if n > 0 && t.get_char(0) == '+' { 1 } else { 0 };
    let ghost body = unsigned(t@);
    assert(body =~= t@.subrange(from as int, n as int));
    if from == n {
        return Command::UnknownCommand(word);
    }
    let mut i = from;
    while i < n
        invariant
            n == t@.len(),
            from <= i <= n,
            body == t@.subrange(from as int, n as int),
            body == unsigned(t@),
            word@ == t@,
            t@ == trimmed(string@),
            t@ != "quit"@,
            forall|k: int| from <= k < i ==> is_digit(#[trigger] t@[k]),
        decreases n - i,
    {
        let c = t.get_char(i);
        let code = c as u32;
        if code < 48 || code > 57 {
            assert(body[i - from] == c);
            assert(!is_digit(body[i - from]));
            return Command::UnknownCommand(word);
        }
        i = i + 1;
    }
    assert forall|k: int| 0 <= k < body.len() implies is_digit(#[trigger] body[k]) by {
        assert(body[k] == t@[k + from]);
    }
    match digits_number(t, from) {
        Some(v) => Command::Play(v),
        None => Command::UnknownCommand(word),
    }
}

} // verus!
