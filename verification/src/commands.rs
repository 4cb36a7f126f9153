use vstd::prelude::*;

verus! {

/// The command line: one subcommand.
pub struct Cli {
    pub command: Commands,
}

/// What the program is asked to do.
pub enum Commands {
    StartServer(StartServerCommand),
    StartClient(StartClientCommand),
}

/// Arguments of `start-server`: the address to listen on.
pub struct StartServerCommand {
    pub ip: String,
    pub port: i32,
}

/// Arguments of `start-client`: the address of the server.
pub struct StartClientCommand {
    pub ip: String,
    pub port: i32,
}

/// Smallest port that the command line accepts.
pub const PORT_MIN: i32 = 1;

/// Largest port that the command line accepts.
pub const PORT_MAX: i32 = 65535;

pub open spec fn is_decimal_digit(c: char) -> bool {
    '0' <= c && c <= '9'
}

/// The value of a non-empty run of decimal digits, most significant first.
pub open spec fn digits_value(s: Seq<char>) -> int
    decreases s.len(),
{
    if s.len() == 0 {
        0
    } else {
        digits_value(s.drop_last()) * 10 + (s.last() as int - '0' as int)
    }
}

pub open spec fn all_decimal_digits(s: Seq<char>) -> bool {
    s.len() > 0 && forall|i: int| 0 <= i < s.len() ==> #[trigger] is_decimal_digit(s[i])
}

/// The integer that a text spells in decimal: an optional `+` or `-`, then one
/// or more digits and nothing else. `None` for any other text.
pub open spec fn decimal_value(s: Seq<char>) -> Option<int> {
    if s.len() > 0 && (s[0] == '+' || s[0] == '-') {
        if all_decimal_digits(s.drop_first()) {
            if s[0] == '-' {
                Some(-digits_value(s.drop_first()))
            } else {
                Some(digits_value(s.drop_first()))
            }
        } else {
            None
        }
    } else if all_decimal_digits(s) {
        Some(digits_value(s))
    } else {
        None
    }
}

/// What `str::parse::<i32>` gives: the decimal value where it fits in an `i32`.
pub open spec fn parsed_i32(s: Seq<char>) -> Option<i32> {
    match decimal_value(s) {
        Some(v) => if i32::MIN <= v <= i32::MAX {
            Some(v as i32)
        } else {
            None
        },
        None => None,
    }
}

/// `<i32 as FromStr>::from_str`. Its documentation: the text is an optional
/// `+` or `-` sign followed by digits, with no whitespace; an empty text, a
/// stray character or a value outside `i32` is an error. The contract states
/// that as `parsed_i32`; the kind of error is dropped.
#[verifier::external_body]
fn parse_i32(s: &str) -> (r: Option<i32>)
    ensures
        r == parsed_i32(s@),
{
    s.parse::<i32>().ok()
}

/// The message for a text that is not a number.
pub open spec fn not_a_port_message(s: Seq<char>) -> Seq<char> {
    s + " is not a port"@
}

/// The message for a number outside `PORT_MIN ..= PORT_MAX`.
pub open spec fn port_out_of_range_message() -> Seq<char> {
    "port not in range 1 : 65535"@
}

/// Checks a port given on the command line: the text must be a decimal
/// `i32` in `PORT_MIN ..= PORT_MAX`.
pub fn port_in_range(s: &str) -> (r: Result<i32, String>)
    ensures
        match parsed_i32(s@) {
            None => r matches Err(m) && m@ == not_a_port_message(s@),
            Some(p) => if PORT_MIN <= p <= PORT_MAX {
                r == Ok::<i32, String>(p)
            } else {
                r matches Err(m) && m@ == port_out_of_range_message()
            },
        },
{
    match parse_i32(s) {
        None => {
            let mut message = s.to_string();
            message.append(" is not a port");
            Err(message)
        },
        Some(port) => {
            if PORT_MIN <= port && port <= PORT_MAX {
                Ok(port)
            } else {
                Err("port not in range 1 : 65535".to_string())
            }
        },
    }
}

/// The decimal digit for a value below ten.
pub open spec fn digit_char(d: nat) -> char {
    ('0' as int + d) as char
}

/// How a number is written in decimal: its digits, most significant first,
/// without sign or leading zeros.
pub open spec fn decimal_text(n: nat) -> Seq<char>
    decreases n,
{
    if n < 10 {
        seq![digit_char(n)]
    } else {
        decimal_text(n / 10).push(digit_char(n % 10))
    }
}

proof fn lemma_decimal_text_digits(n: nat)
    ensures
        all_decimal_digits(decimal_text(n)),
        digits_value(decimal_text(n)) == n,
    decreases n,
{
    let s = decimal_text(n);
    if n < 10 {
        assert(s.drop_last() =~= Seq::<char>::empty());
        assert(digits_value(s.drop_last()) == 0);
        assert(s.last() as int - '0' as int == n);
    } else {
        lemma_decimal_text_digits(n / 10);
        let prefix = decimal_text(n / 10);
        assert(s.drop_last() == prefix);
        assert(s.last() as int - '0' as int == n % 10);
        assert(n == (n / 10) * 10 + n % 10);
        assert forall|i: int| 0 <= i < s.len() implies #[trigger] is_decimal_digit(s[i]) by {
            if i < prefix.len() {
                assert(s[i] == prefix[i]);
                assert(is_decimal_digit(prefix[i]));
            }
        }
    }
}

/// Every port's decimal text is accepted, as that port: the text parses to
/// it, so by its contract `port_in_range` gives `Ok` of it.
pub proof fn port_text_accepted(port: nat)
    requires
        PORT_MIN <= port <= PORT_MAX,
    ensures
        parsed_i32(decimal_text(port)) == Some(port as i32),
{
    lemma_decimal_text_digits(port);
    let t = decimal_text(port);
    assert(is_decimal_digit(t[0]));
}

} // verus!
