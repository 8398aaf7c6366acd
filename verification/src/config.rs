//! The agent's persisted settings and their key=value text format.
//!
//! The format: lines separated by `\n`; each line is trimmed of ASCII
//! whitespace; a `port=` line with a decimal number sets the port, a
//! `token=` line sets the token, later lines override earlier ones, and
//! anything else is ignored. Rendering produces a `[Settings]` section
//! with one `port=` and one `token=` line.

use vstd::prelude::*;
use vstd::string::StrSliceExecFns;
use vstd::string::StringExecFns;

verus! {

/// The settings a server instance starts with.
pub struct Config {
    pub token: String,
    pub port: u16,
}

/// The mathematical value of a `Config`.
pub struct ConfigView {
    pub token: Seq<char>,
    pub port: u16,
}

impl View for Config {
    type V = ConfigView;

    open spec fn view(&self) -> ConfigView {
        ConfigView { token: self.token@, port: self.port }
    }
}

/// The settings used when no file exists or a line is absent.
pub open spec fn default_config() -> ConfigView {
    ConfigView { token: "default-token-12345"@, port: 8767 }
}

impl Default for Config {
    /// The fixed default settings.
    fn default() -> (r: Config)
        ensures
            r@ == default_config(),
    {
        Config { token: String::from_str("default-token-12345"), port: 8767 }
    }
}

/// ASCII whitespace trimmed from both ends of a line.
pub open spec fn is_space(c: char) -> bool {
    c == ' ' || c == '\t' || c == '\r'
}

/// The line without leading and trailing whitespace.
pub open spec fn trim_of(s: Seq<char>) -> Seq<char>
    decreases s.len(),
{
    if s.len() == 0 {
        s
    } else if is_space(s[0]) {
        trim_of(s.skip(1))
    } else if is_space(s.last()) {
        trim_of(s.drop_last())
    } else {
        s
    }
}

/// How many characters precede the first newline.
pub open spec fn idx_nl(s: Seq<char>) -> nat
    decreases s.len(),
{
    if s.len() == 0 {
        0
    } else if s[0] == '\n' {
        0
    } else {
        1 + idx_nl(s.skip(1))
    }
}

/// The lines of the text, split at `\n`.
pub open spec fn split_lines(s: Seq<char>) -> Seq<Seq<char>>
    decreases s.len(),
{
    if s.len() == 0 {
        Seq::empty()
    } else {
        let i = idx_nl(s) as int;
        if i >= s.len() {
            seq![s]
        } else {
            seq![s.take(i)] + split_lines(s.skip(i + 1))
        }
    }
}

/// `pre` begins `s`.
pub open spec fn has_prefix(s: Seq<char>, pre: Seq<char>) -> bool {
    pre.len() <= s.len() && s.take(pre.len() as int) == pre
}

/// A decimal digit.
pub open spec fn is_digit(c: char) -> bool {
    '0' <= c && c <= '9'
}

/// The digit's value.
pub open spec fn digit_val(c: char) -> nat {
    (c as u32 - '0' as u32) as nat
}

/// Every character is a digit, and there is at least one.
pub open spec fn all_digits(s: Seq<char>) -> bool {
    s.len() >= 1 && forall|i: int| 0 <= i < s.len() ==> is_digit(s[i])
}

/// The number the digit string denotes.
pub open spec fn dec_val(s: Seq<char>) -> nat
    decreases s.len(),
{
    if s.len() == 0 {
        0
    } else {
        dec_val(s.drop_last()) * 10 + digit_val(s.last())
    }
}

/// What parsing a port value yields: a number only for a pure digit
/// string whose value fits.
pub open spec fn parse_u16_of(s: Seq<char>) -> Option<u16> {
    if all_digits(s) && dec_val(s) <= 65535 {
        Some(dec_val(s) as u16)
    } else {
        None
    }
}

/// The effect of one (untrimmed) line on the settings.
pub open spec fn step_line(c: ConfigView, raw: Seq<char>) -> ConfigView {
    let l = trim_of(raw);
    if has_prefix(l, "port="@) {
        match parse_u16_of(l.skip(5)) {
            Some(p) => ConfigView { token: c.token, port: p },
            None => c,
        }
    } else if has_prefix(l, "token="@) {
        ConfigView { token: l.skip(6), port: c.port }
    } else {
        c
    }
}

/// The settings after every line is applied in order.
pub open spec fn fold_lines(c: ConfigView, lines: Seq<Seq<char>>) -> ConfigView
    decreases lines.len(),
{
    if lines.len() == 0 {
        c
    } else {
        fold_lines(step_line(c, lines.first()), lines.drop_first())
    }
}

/// What loading a settings text yields.
pub open spec fn parse_config_of(content: Seq<char>) -> ConfigView {
    fold_lines(default_config(), split_lines(content))
}

/// The decimal rendering of a number.
pub open spec fn dec_of(n: u16) -> Seq<char>
    decreases n,
{
    if n < 10 {
        seq![digit_char(n)]
    } else {
        dec_of(n / 10) + seq![digit_char(n % 10)]
    }
}

/// The digit character for a value below 10.
pub open spec fn digit_char(n: u16) -> char {
    if n == 0 { '0' } else if n == 1 { '1' } else if n == 2 { '2' } else if n == 3 { '3' }
    else if n == 4 { '4' } else if n == 5 { '5' } else if n == 6 { '6' } else if n == 7 { '7' }
    else if n == 8 { '8' } else { '9' }
}

/// What saving the settings produces.
pub open spec fn render_of(c: ConfigView) -> Seq<char> {
    "[Settings]\nport="@ + dec_of(c.port) + "\ntoken="@ + c.token + "\n"@
}

/// Scanning up to the first non-matching position computes `idx_nl`.
proof fn lemma_idx_nl(s: Seq<char>, j: int)
    requires
        0 <= j <= s.len(),
        forall|k: int| 0 <= k < j ==> s[k] != '\n',
        j == s.len() || s[j] == '\n',
    ensures
        idx_nl(s) == j,
    decreases j,
{
    if j == 0 {
    } else {
        assert(s[0] != '\n');
        assert(forall|k: int| 0 <= k < j - 1 ==> s.skip(1)[k] == s[k + 1]);
        lemma_idx_nl(s.skip(1), j - 1);
    }
}

/// An index-bracketed scan computes `trim_of`.
proof fn lemma_trim_index(s: Seq<char>, a: int, b: int)
    requires
        0 <= a <= b <= s.len(),
        forall|i: int| 0 <= i < a ==> is_space(s[i]),
        forall|i: int| b <= i < s.len() ==> is_space(s[i]),
        a < b ==> !is_space(s[a]) && !is_space(s[b - 1]),
    ensures
        trim_of(s) == s.subrange(a, b),
    decreases s.len(),
{
    if s.len() == 0 {
        assert(trim_of(s) =~= s.subrange(a, b));
    } else if is_space(s[0]) {
        let t = s.skip(1);
        assert(forall|i: int| 0 <= i < t.len() ==> t[i] == s[i + 1]);
        if a == b {
            lemma_trim_index(t, 0, 0);
            assert(t.subrange(0, 0) =~= s.subrange(a, b));
        } else {
            assert(!is_space(s[a]));
            assert(a >= 1);
            lemma_trim_index(t, a - 1, b - 1);
            assert(t.subrange(a - 1, b - 1) =~= s.subrange(a, b));
        }
    } else if is_space(s.last()) {
        assert(b <= s.len() - 1);
        let t = s.drop_last();
        assert(forall|i: int| 0 <= i < t.len() ==> t[i] == s[i]);
        lemma_trim_index(t, a, b);
        assert(t.subrange(a, b) =~= s.subrange(a, b));
    } else {
        assert(a == 0);
        assert(b == s.len());
        assert(trim_of(s) =~= s.subrange(a, b));
    }
}

/// A longer digit prefix never denotes a smaller number.
proof fn lemma_dec_val_mono(s: Seq<char>, i: int, j: int)
    requires
        0 <= i <= j <= s.len(),
    ensures
        dec_val(s.take(i)) <= dec_val(s.take(j)),
    decreases j - i,
{
    if i < j {
        lemma_dec_val_mono(s, i, j - 1);
        assert(s.take(j).drop_last() =~= s.take(j - 1));
        assert(dec_val(s.take(j)) == dec_val(s.take(j - 1)) * 10 + digit_val(s.take(j).last()));
    }
}

/// Whether `pre`'s characters begin `s`'s.
fn str_has_prefix(s: &str, pre: &str) -> (r: bool)
    ensures
        r == has_prefix(s@, pre@),
{
    let n = s.unicode_len();
    let m = pre.unicode_len();
    if m > n {
        return false;
    }
    let mut i: usize = 0;
    while i < m
        invariant
            m <= n,
            n == s@.len(),
            m == pre@.len(),
            i <= m,
            forall|j: int| 0 <= j < i ==> s@[j] == pre@[j],
        decreases m - i,
    {
        if s.get_char(i) != pre.get_char(i) {
            assert(s@.take(pre@.len() as int)[i as int] != pre@[i as int]);
            return false;
        }
        i += 1;
    }
    proof {
        assert(s@.take(pre@.len() as int) =~= pre@);
    }
    true
}

/// Parses a decimal port number; anything but a fitting digit string is
/// rejected.
fn parse_u16(s: &str) -> (r: Option<u16>)
    ensures
        r == parse_u16_of(s@),
{
    let n = s.unicode_len();
    if n == 0 {
        return None;
    }
    let mut val: u32 = 0;
    let mut i: usize = 0;
    while i < n
        invariant
            n == s@.len(),
            i <= n,
            forall|j: int| 0 <= j < i ==> is_digit(s@[j]),
            val == dec_val(s@.take(i as int)),
            val <= 65535,
        decreases n - i,
    {
        let c = s.get_char(i);
        if !(c >= '0' && c <= '9') {
            assert(!is_digit(s@[i as int]));
            return None;
        }
        let d: u32 = c as u32 - '0' as u32;
        proof {
            assert(s@.take(i + 1).drop_last() =~= s@.take(i as int));
            assert(s@.take(i + 1).last() == s@[i as int]);
        }
        let next: u32 = val * 10 + d;
        if next > 65535 {
            proof {
                lemma_dec_val_mono(s@, i + 1, n as int);
                assert(s@.take(n as int) =~= s@);
            }
            return None;
        }
        val = next;
        i += 1;
    }
    proof {
        assert(s@.take(n as int) =~= s@);
        assert(all_digits(s@));
    }
    Some(val as u16)
}

/// Trims ASCII whitespace from both ends.
fn trim_str(s: &str) -> (r: &str)
    ensures
        r@ == trim_of(s@),
{
    let n = s.unicode_len();
    let mut a: usize = 0;
    while a < n
        invariant
            n == s@.len(),
            a <= n,
            forall|i: int| 0 <= i < a ==> is_space(s@[i]),
        ensures
            a <= n,
            forall|i: int| 0 <= i < a ==> is_space(s@[i]),
            a < n ==> !is_space(s@[a as int]),
        decreases n - a,
    {
        let c = s.get_char(a);
        if !(c == ' ' || c == '\t' || c == '\r') {
            break;
        }
        a += 1;
    }
    let mut b: usize = n;
    while b > a
        invariant
            n == s@.len(),
            a <= b <= n,
            forall|i: int| b <= i < n ==> is_space(s@[i]),
        ensures
            a <= b <= n,
            forall|i: int| b <= i < n ==> is_space(s@[i]),
            b > a ==> !is_space(s@[b - 1]),
        decreases b,
    {
        let c = s.get_char(b - 1);
        if !(c == ' ' || c == '\t' || c == '\r') {
            break;
        }
        b -= 1;
    }
    proof {
        lemma_trim_index(s@, a as int, b as int);
    }
    s.substring_char(a, b)
}

/// Loads settings from the file's text: later lines override earlier
/// ones, unparsable port values are ignored, and missing keys keep the
/// defaults.
pub fn parse_config(content: &str) -> (r: Config)
    ensures
        r@ == parse_config_of(content@),
{
    let ghost full = content@;
    let n = content.unicode_len();
    let mut cfg = Config::default();
    let mut i: usize = 0;
    proof {
        assert(full.skip(0) =~= full);
    }
    while i < n
        invariant
            n == full.len(),
            full == content@,
            i <= n,
            parse_config_of(full) == fold_lines(cfg@, split_lines(full.skip(i as int))),
        decreases n - i,
    {
        let ghost before = cfg@;
        let mut j: usize = i;
        while j < n
            invariant
                n == full.len(),
                full == content@,
                i <= j <= n,
                forall|k: int| i <= k < j ==> full[k] != '\n',
            ensures
                i <= j <= n,
                forall|k: int| i <= k < j ==> full[k] != '\n',
                j < n ==> full[j as int] == '\n',
            decreases n - j,
        {
            if content.get_char(j) == '\n' {
                break;
            }
            j += 1;
        }
        let line = content.substring_char(i, j);
        proof {
            let rem = full.skip(i as int);
            assert(forall|k: int| 0 <= k < rem.len() ==> rem[k] == full[k + i]);
            lemma_idx_nl(rem, j - i);
            if j < n {
                assert(rem.take(j - i) =~= full.subrange(i as int, j as int));
                assert(rem.skip(j - i + 1) =~= full.skip(j + 1));
                assert(split_lines(rem) == seq![line@] + split_lines(full.skip(j + 1)));
                assert((seq![line@] + split_lines(full.skip(j + 1))).first() == line@);
                assert((seq![line@] + split_lines(full.skip(j + 1))).drop_first() =~= split_lines(
                    full.skip(j + 1),
                ));
            } else {
                assert(rem =~= full.subrange(i as int, j as int));
                assert(split_lines(rem) == seq![line@]);
                assert(seq![line@].first() == line@);
                assert(seq![line@].drop_first() =~= Seq::<Seq<char>>::empty());
                assert(full.skip(n as int) =~= Seq::<char>::empty());
            }
        }
        let trimmed = trim_str(line);
        proof {
            reveal_strlit("port=");
            reveal_strlit("token=");
        }
        if str_has_prefix(trimmed, "port=") {
            let digits = trimmed.substring_char(5, trimmed.unicode_len());
            proof {
                assert(digits@ =~= trimmed@.skip(5));
            }
            match parse_u16(digits) {
                Some(p) => {
                    cfg.port = p;
                },
                None => {},
            }
        } else if str_has_prefix(trimmed, "token=") {
            let value = trimmed.substring_char(6, trimmed.unicode_len());
            proof {
                assert(value@ =~= trimmed@.skip(6));
            }
            cfg.token = String::from_str(value);
        }
        proof {
            assert(cfg@ == step_line(before, line@));
        }
        let ghost i0 = i as int;
        if j < n {
            i = j + 1;
        } else {
            i = n;
        }
        proof {
            let rem = full.skip(i0);
            if j < n {
                assert(fold_lines(before, split_lines(rem)) == fold_lines(
                    step_line(before, line@),
                    split_lines(full.skip(j + 1)),
                ));
            } else {
                assert(split_lines(rem) =~= seq![line@]);
                assert(seq![line@].first() == line@);
                assert(seq![line@].drop_first() =~= Seq::<Seq<char>>::empty());
                assert(full.skip(n as int) =~= Seq::<char>::empty());
                assert(split_lines(full.skip(n as int)) =~= Seq::<Seq<char>>::empty());
            }
            assert(parse_config_of(full) == fold_lines(cfg@, split_lines(full.skip(i as int))));
        }
    }
    proof {
        assert(full.skip(n as int) =~= Seq::<char>::empty());
    }
    cfg
}

/// Renders a number in decimal.
fn u16_to_dec(n: u16) -> (r: String)
    ensures
        r@ == dec_of(n),
    decreases n,
{
    let digits = "0123456789";
    proof {
        reveal_strlit("0123456789");
        assert(forall|j: u16| j < 10 ==> digits@[j as int] == digit_char(j));
    }
    if n < 10 {
        let r = String::from_str(digits.substring_char(n as usize, n as usize + 1));
        proof {
            assert(digits@.subrange(n as int, n as int + 1) =~= seq![digit_char(n)]);
        }
        r
    } else {
        let mut r = u16_to_dec(n / 10);
        let d = n % 10;
        r.append(digits.substring_char(d as usize, d as usize + 1));
        proof {
            assert(digits@.subrange(d as int, d as int + 1) =~= seq![digit_char(d)]);
        }
        r
    }
}

/// Renders the settings in the persisted format.
pub fn render_config(c: &Config) -> (r: String)
    ensures
        r@ == render_of(c@),
{
    let mut r = String::from_str("[Settings]\nport=");
    r.append(u16_to_dec(c.port).as_str());
    r.append("\ntoken=");
    r.append(c.token.as_str());
    r.append("\n");
    r
}

} // verus!
