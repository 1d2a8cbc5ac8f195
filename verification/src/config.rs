//! Broker configuration: host and port, their defaults and their validation.
use vstd::prelude::*;

use vstd::string::StringExecFns;

use crate::platform::io_error_text;

verus! {

/// The default bind host.
pub open spec fn default_host_text() -> Seq<char> {
    "127.0.0.1"@
}

/// The default port. It is not the MQTT standard port 1883 on purpose.
pub open spec fn default_port_number() -> u16 {
    1884
}

/// Error while loading the broker configuration.
#[derive(Debug)]
pub enum ConfigError {
    /// The TOML file could not be parsed.
    ParseError(String),
    /// The configuration values are invalid.
    ValidationError(String),
    /// File system error while reading the file.
    IoError(std::io::Error),
}

/// The decimal digit `d` as a character.
pub open spec fn digit_char(d: nat) -> char {
    if d == 0 {
        '0'
    } else if d == 1 {
        '1'
    } else if d == 2 {
        '2'
    } else if d == 3 {
        '3'
    } else if d == 4 {
        '4'
    } else if d == 5 {
        '5'
    } else if d == 6 {
        '6'
    } else if d == 7 {
        '7'
    } else if d == 8 {
        '8'
    } else {
        '9'
    }
}

/// The decimal notation of `n`, without leading zeros.
pub open spec fn decimal(n: nat) -> Seq<char>
    decreases n,
{
    if n < 10 {
        seq![digit_char(n)]
    } else {
        decimal(n / 10).push(digit_char(n % 10))
    }
}

fn digit_str(d: u16) -> (r: &'static str)
    requires
        d < 10,
    ensures
        r@ == seq![digit_char(d as nat)],
{
    proof {
        reveal_strlit("0");
        reveal_strlit("1");
        reveal_strlit("2");
        reveal_strlit("3");
        reveal_strlit("4");
        reveal_strlit("5");
        reveal_strlit("6");
        reveal_strlit("7");
        reveal_strlit("8");
        reveal_strlit("9");
    }
    if d == 0 {
        "0"
    } else if d == 1 {
        "1"
    } else if d == 2 {
        "2"
    } else if d == 3 {
        "3"
    } else if d == 4 {
        "4"
    } else if d == 5 {
        "5"
    } else if d == 6 {
        "6"
    } else if d == 7 {
        "7"
    } else if d == 8 {
        "8"
    } else {
        "9"
    }
}

/// Appends the decimal notation of `n` to `out`.
fn push_decimal(out: &mut String, n: u16)
    ensures
        final(out)@ == old(out)@ + decimal(n as nat),
    decreases n,
{
    if n < 10 {
        out.append(digit_str(n));
    } else {
        push_decimal(out, n / 10);
        out.append(digit_str(n % 10));
        assert(out@ =~= old(out)@ + decimal(n as nat));
    }
}

impl ConfigError {
    /// The message of the error, as it is shown to the user.
    pub fn describe(&self) -> (r: String)
        ensures
            match self {
                ConfigError::ParseError(msg) => r@ == "Konfigurationsfehler: "@ + msg@,
                ConfigError::ValidationError(msg) => r@ == "Validierungsfehler: "@ + msg@,
                ConfigError::IoError(_) => "IO-Fehler: "@.is_prefix_of(r@),
            },
    {
        match self {
            ConfigError::ParseError(msg) => {
                <String as StringExecFns>::from_str("Konfigurationsfehler: ").concat(msg.as_str())
            },
            ConfigError::ValidationError(msg) => {
                <String as StringExecFns>::from_str("Validierungsfehler: ").concat(msg.as_str())
            },
            ConfigError::IoError(err) => {
                let text = io_error_text(err);
                let r = <String as StringExecFns>::from_str("IO-Fehler: ").concat(text.as_str());
                assert(r@.subrange(0, "IO-Fehler: "@.len() as int) =~= "IO-Fehler: "@);
                r
            },
        }
    }
}

/// Broker configuration with host and port.
#[derive(Debug)]
pub struct BrokerConfig {
    /// Bind address of the broker.
    pub host: String,
    /// Port of the broker.
    pub port: u16,
}

/// The default bind host.
pub fn default_host() -> (r: String)
    ensures
        r@ == default_host_text(),
{
    <String as StringExecFns>::from_str("127.0.0.1")
}

/// The default port.
pub fn default_port() -> (r: u16)
    ensures
        r == default_port_number(),
{
    1884
}

impl Default for BrokerConfig {
    fn default() -> (r: Self)
        ensures
            r.host@ == default_host_text(),
            r.port == default_port_number(),
    {
        Self { host: default_host(), port: default_port() }
    }
}

impl BrokerConfig {
    /// The full bind address `host:port`.
    pub open spec fn address_text(&self) -> Seq<char> {
        self.host@ + ":"@ + decimal(self.port as nat)
    }

    /// Checks whether the configuration values are valid: the port must not be 0.
    pub fn validate(&self) -> (r: Result<(), ConfigError>)
        ensures
            self.port != 0 ==> r is Ok,
            self.port == 0 ==> (r matches Err(ConfigError::ValidationError(msg)) && msg@
                == "Port darf nicht 0 sein"@),
    {
        if self.port == 0 {
            return Err(
                ConfigError::ValidationError(
                    <String as StringExecFns>::from_str("Port darf nicht 0 sein"),
                ),
            );
        }
        Ok(())
    }

    /// The configuration that `load_from` yields, given what reading the file
    /// gave: `None` when there is no file (the defaults), the parsed
    /// configuration, or the parser's message. A parsed configuration is
    /// validated.
    pub fn from_parsed(parsed: Option<Result<BrokerConfig, String>>) -> (r: Result<
        BrokerConfig,
        ConfigError,
    >)
        ensures
            match parsed {
                None => r matches Ok(c) && c.host@ == default_host_text() && c.port
                    == default_port_number(),
                Some(Err(msg)) => r matches Err(ConfigError::ParseError(m)) && m@ == msg@,
                Some(Ok(cfg)) => if cfg.port == 0 {
                    r matches Err(ConfigError::ValidationError(m)) && m@ == "Port darf nicht 0 sein"@
                } else {
                    r matches Ok(c) && c.host@ == cfg.host@ && c.port == cfg.port
                },
            },
    {
        match parsed {
            None => Ok(Self::default()),
            Some(Err(msg)) => Err(ConfigError::ParseError(msg)),
            Some(Ok(config)) => {
                match config.validate() {
                    Ok(()) => Ok(config),
                    Err(e) => Err(e),
                }
            },
        }
    }

    /// Builds the full bind address as a string.
    pub fn address(&self) -> (r: String)
        ensures
            r@ == self.address_text(),
    {
        proof {
            reveal_strlit(":");
        }
        let mut out = self.host.clone();
        out.append(":");
        push_decimal(&mut out, self.port);
        out
    }
}

/// Whether `c` is one of the decimal digit characters `0` to `9`.
pub open spec fn is_decimal_digit(c: char) -> bool {
    48 <= (c as int) && (c as int) <= 57
}

/// The number that a string of decimal digits denotes, read from the left.
pub open spec fn decimal_value(s: Seq<char>) -> int
    decreases s.len(),
{
    if s.len() == 0 {
        0
    } else {
        decimal_value(s.drop_last()) * 10 + ((s.last() as int) - 48)
    }
}

proof fn lemma_digit_char_code(d: nat)
    requires
        d < 10,
    ensures
        (digit_char(d) as int) == 48 + d,
{
}

/// The decimal notation is standard: it is a non-empty string of digit
/// characters without a leading zero (but for 0 itself), and reading it back
/// as a decimal number gives `n`.
pub proof fn lemma_decimal_reads_back(n: nat)
    ensures
        decimal(n).len() >= 1,
        forall|i: int| 0 <= i < decimal(n).len() ==> is_decimal_digit(#[trigger] decimal(n)[i]),
        decimal_value(decimal(n)) == n,
        n > 0 ==> decimal(n)[0] != '0',
    decreases n,
{
    if n < 10 {
        lemma_digit_char_code(n);
        assert(decimal(n).drop_last() =~= Seq::<char>::empty());
        assert(decimal_value(decimal(n)) == decimal_value(Seq::<char>::empty()) * 10 + (
        digit_char(n) as int) - 48);
    } else {
        lemma_decimal_reads_back(n / 10);
        lemma_digit_char_code(n % 10);
        let d = decimal(n / 10);
        assert(decimal(n) == d.push(digit_char(n % 10)));
        assert(decimal(n).drop_last() =~= d);
        assert forall|i: int| 0 <= i < decimal(n).len() implies is_decimal_digit(
            #[trigger] decimal(n)[i],
        ) by {
            if i < d.len() {
                assert(decimal(n)[i] == d[i]);
            }
        }
        assert(decimal(n)[0] == d[0]);
        assert(decimal_value(decimal(n)) == decimal_value(d) * 10 + (digit_char(n % 10) as int)
            - 48);
        assert((n / 10) * 10 + n % 10 == n) by (nonlinear_arith);
    }
}

/// The bind address is `host`, a colon, and the port in decimal digits that
/// read back as the port.
pub proof fn lemma_address_parts(c: BrokerConfig)
    ensures
        c.address_text().take(c.host@.len() as int) == c.host@,
        c.address_text()[c.host@.len() as int] == ':',
        forall|i: int|
            c.host@.len() + 1 <= i < c.address_text().len() ==> is_decimal_digit(
                #[trigger] c.address_text()[i],
            ),
        decimal_value(c.address_text().skip(c.host@.len() as int + 1)) == c.port,
{
    reveal_strlit(":");
    let a = c.address_text();
    let h = c.host@;
    let d = decimal(c.port as nat);
    lemma_decimal_reads_back(c.port as nat);
    assert(":"@ == seq![':']);
    assert(a == h + seq![':'] + d);
    assert(a.take(h.len() as int) =~= h);
    assert(a.skip(h.len() as int + 1) =~= d);
    assert forall|i: int| h.len() + 1 <= i < a.len() implies is_decimal_digit(#[trigger] a[i]) by {
        assert(a[i] == d[i - h.len() - 1]);
    }
}

} // verus!
