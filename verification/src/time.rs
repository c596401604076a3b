use vstd::prelude::*;
use crate::digest::hex_digit;
use crate::errors::WTSError;

verus! {

/// A point in time with microsecond precision, counted from the Unix epoch.
#[derive(Clone, Copy, PartialEq, Eq, Structural, Debug)]
pub struct UnixTimestamp {
    pub secs: i64,
    pub micros: u32,
}

/// Relies on chrono::Utc::now and chrono::DateTime::timestamp_micros: the
/// number of non-leap microseconds since the Unix epoch, by the system
/// clock. Nothing is promised of the value: it depends on the clock.
#[verifier::external_body]
pub(crate) fn now_micros() -> i64 {
    chrono::Utc::now().timestamp_micros()
}

/// Splits a microsecond count into whole seconds and the fractional part,
/// flooring toward minus infinity as the textual form demands.
pub fn timestamp_from_micros(us: i64) -> (r: UnixTimestamp)
    ensures
        r.wf(),
        r.secs * 1_000_000 + r.micros == us,
{
    if us >= 0 {
        let u = us as u64;
        let q = u / 1_000_000;
        let m = u % 1_000_000;
        proof {
            assert(q * 1_000_000 + m == u) by (nonlinear_arith)
                requires
                    q == u / 1_000_000,
                    m == u % 1_000_000,
            ;
            assert(q <= u) by (nonlinear_arith)
                requires
                    q == u / 1_000_000,
            ;
        }
        UnixTimestamp { secs: q as i64, micros: m as u32 }
    } else {
        let mag = ((-(us + 1)) as u64) + 1;
        let q = mag / 1_000_000;
        let m = mag % 1_000_000;
        proof {
            assert(q * 1_000_000 + m == mag) by (nonlinear_arith)
                requires
                    q == mag / 1_000_000,
                    m == mag % 1_000_000,
            ;
            assert(q <= mag) by (nonlinear_arith)
                requires
                    q == mag / 1_000_000,
            ;
        }
        if m == 0 {
            UnixTimestamp { secs: -(q as i64), micros: 0 }
        } else {
            UnixTimestamp { secs: -(q as i64) - 1, micros: (1_000_000 - m) as u32 }
        }
    }
}

/// Decimal digits of `n`, most significant first.
pub open spec fn dec_chars(n: nat) -> Seq<char>
    decreases n,
{
    if n < 10 {
        seq![hex_digit(n as u8)]
    } else {
        dec_chars(n / 10).push(hex_digit((n % 10) as u8))
    }
}

/// The microsecond field, zero-padded to six digits.
pub open spec fn micros_chars(m: nat) -> Seq<char> {
    if m < 10 {
        seq!['0', '0', '0', '0', '0'] + dec_chars(m)
    } else if m < 100 {
        seq!['0', '0', '0', '0'] + dec_chars(m)
    } else if m < 1_000 {
        seq!['0', '0', '0'] + dec_chars(m)
    } else if m < 10_000 {
        seq!['0', '0'] + dec_chars(m)
    } else if m < 100_000 {
        seq!['0'] + dec_chars(m)
    } else {
        dec_chars(m)
    }
}

/// The textual form of a timestamp: seconds since the epoch, a dot, and six
/// fractional digits.
pub open spec fn ts_chars(t: UnixTimestamp) -> Seq<char> {
    if t.secs < 0 {
        seq!['-'] + dec_chars((-(t.secs as int)) as nat) + seq!['.'] + micros_chars(
            t.micros as nat,
        )
    } else {
        dec_chars(t.secs as nat) + seq!['.'] + micros_chars(t.micros as nat)
    }
}


/// Whether a character is a decimal digit.
pub open spec fn is_digit(c: char) -> bool {
    48 <= c as u32 <= 57
}

/// The numeric value of a decimal digit character.
pub open spec fn digit_val(c: char) -> nat {
    (c as u32 - 48) as nat
}

/// The number that a string of decimal digits denotes, most significant
/// digit first.
pub open spec fn dec_val(s: Seq<char>) -> nat
    decreases s.len(),
{
    if s.len() == 0 {
        0
    } else {
        dec_val(s.drop_last()) * 10 + digit_val(s.last())
    }
}

/// Ten to the `k`.
pub open spec fn pow10(k: nat) -> nat
    decreases k,
{
    if k == 0 {
        1
    } else {
        10 * pow10((k - 1) as nat)
    }
}

/// The powers of ten up to the width of the microsecond field.
pub proof fn lemma_pow10_vals()
    ensures
        pow10(0) == 1,
        pow10(1) == 10,
        pow10(2) == 100,
        pow10(3) == 1_000,
        pow10(4) == 10_000,
        pow10(5) == 100_000,
        pow10(6) == 1_000_000,
{
    assert(pow10(0) == 1);
    assert(pow10(1) == 10);
    assert(pow10(2) == 100);
    assert(pow10(3) == 1_000);
    assert(pow10(4) == 10_000);
    assert(pow10(5) == 100_000);
    assert(pow10(6) == 1_000_000);
}

/// The ten digit characters carry the codes 48 through 57, in order.
pub proof fn lemma_digit_char(d: u8)
    requires
        d < 10,
    ensures
        hex_digit(d) as u32 == 48 + d,
        is_digit(hex_digit(d)),
        digit_val(hex_digit(d)) == d,
{
}

/// Every character of a decimal rendering is a digit.
pub proof fn lemma_dec_chars_digits(v: nat)
    ensures
        dec_chars(v).len() >= 1,
        forall|j: int| 0 <= j < dec_chars(v).len() ==> is_digit(#[trigger] dec_chars(v)[j]),
    decreases v,
{
    if v < 10 {
        lemma_digit_char(v as u8);
    } else {
        lemma_dec_chars_digits(v / 10);
        lemma_digit_char((v % 10) as u8);
        assert forall|j: int| 0 <= j < dec_chars(v).len() implies is_digit(
            #[trigger] dec_chars(v)[j],
        ) by {
            if j < dec_chars(v / 10).len() {
                assert(dec_chars(v)[j] == dec_chars(v / 10)[j]);
            }
        }
    }
}

/// Reading the decimal rendering of `v` back as a number gives `v`.
pub proof fn lemma_dec_val_dec_chars(v: nat)
    ensures
        dec_val(dec_chars(v)) == v,
    decreases v,
{
    if v < 10 {
        lemma_digit_char(v as u8);
        assert(dec_chars(v) == seq![hex_digit(v as u8)]);
        assert(dec_chars(v).drop_last() =~= Seq::<char>::empty());
        assert(dec_chars(v).last() == hex_digit(v as u8));
        assert(dec_val(dec_chars(v)) == dec_val(Seq::<char>::empty()) * 10 + digit_val(
            hex_digit(v as u8),
        ));
        assert(digit_val(hex_digit(v as u8)) == v);
    } else {
        lemma_dec_val_dec_chars(v / 10);
        lemma_digit_char((v % 10) as u8);
        assert(dec_chars(v).drop_last() =~= dec_chars(v / 10));
        assert(v / 10 * 10 + v % 10 == v) by (nonlinear_arith);
    }
}

/// The value of a prefix of a decimal rendering never exceeds the number.
pub proof fn lemma_dec_prefix(v: nat, k: int)
    requires
        0 <= k <= dec_chars(v).len(),
    ensures
        dec_val(dec_chars(v).take(k)) <= v,
    decreases v,
{
    if k == dec_chars(v).len() {
        assert(dec_chars(v).take(k) =~= dec_chars(v));
        lemma_dec_val_dec_chars(v);
    } else {
        if v < 10 {
            assert(k == 0);
            assert(dec_chars(v).take(0) =~= Seq::<char>::empty());
        } else {
            assert(dec_chars(v).take(k) =~= dec_chars(v / 10).take(k));
            lemma_dec_prefix(v / 10, k);
        }
    }
}

/// A run of zero characters denotes zero.
proof fn lemma_dec_val_zeros(p: Seq<char>)
    requires
        forall|j: int| 0 <= j < p.len() ==> p[j] == '0',
    ensures
        dec_val(p) == 0,
    decreases p.len(),
{
    if p.len() > 0 {
        assert forall|j: int| 0 <= j < p.drop_last().len() implies p.drop_last()[j] == '0' by {
            assert(p.drop_last()[j] == p[j]);
        }
        lemma_dec_val_zeros(p.drop_last());
        assert(p.last() == '0');
    }
}

/// Leading zeros do not change the value that digits denote.
proof fn lemma_dec_val_zero_prefix(p: Seq<char>, x: Seq<char>)
    requires
        forall|j: int| 0 <= j < p.len() ==> p[j] == '0',
    ensures
        dec_val(p + x) == dec_val(x),
    decreases x.len(),
{
    if x.len() == 0 {
        assert(p + x =~= p);
        lemma_dec_val_zeros(p);
    } else {
        assert((p + x).drop_last() =~= p + x.drop_last());
        assert((p + x).last() == x.last());
        lemma_dec_val_zero_prefix(p, x.drop_last());
    }
}

/// The six-digit microsecond field: its length, its digits, and the value
/// it denotes.
pub proof fn lemma_micros_chars_props(m: nat)
    requires
        m < 1_000_000,
    ensures
        micros_chars(m).len() == 6,
        forall|j: int| 0 <= j < 6 ==> is_digit(#[trigger] micros_chars(m)[j]),
        dec_val(micros_chars(m)) == m,
{
    lemma_dec_chars_digits(m);
    lemma_dec_val_dec_chars(m);
    if m >= 10 {
        assert(dec_chars(m) == dec_chars(m / 10).push(hex_digit((m % 10) as u8)));
        lemma_dec_chars_digits(m / 10);
        if m >= 100 {
            assert(dec_chars(m / 10) == dec_chars(m / 100).push(hex_digit((m / 10 % 10) as u8)));
            lemma_dec_chars_digits(m / 100);
            if m >= 1_000 {
                assert(dec_chars(m / 100) == dec_chars(m / 1_000).push(
                    hex_digit((m / 100 % 10) as u8),
                ));
                lemma_dec_chars_digits(m / 1_000);
                if m >= 10_000 {
                    assert(dec_chars(m / 1_000) == dec_chars(m / 10_000).push(
                        hex_digit((m / 1_000 % 10) as u8),
                    ));
                    lemma_dec_chars_digits(m / 10_000);
                    if m >= 100_000 {
                        assert(dec_chars(m / 10_000) == dec_chars(m / 100_000).push(
                            hex_digit((m / 10_000 % 10) as u8),
                        ));
                        lemma_dec_chars_digits(m / 100_000);
                        assert(m / 100_000 < 10);
                    }
                }
            }
        }
    }
    assert(micros_chars(m).len() == 6);
    let pad = micros_chars(m).take(6 - dec_chars(m).len());
    assert(forall|j: int| 0 <= j < pad.len() ==> pad[j] == '0');
    assert(micros_chars(m) =~= pad + dec_chars(m));
    lemma_dec_val_zero_prefix(pad, dec_chars(m));
    lemma_digit_char(0);
    assert forall|j: int| 0 <= j < 6 implies is_digit(#[trigger] micros_chars(m)[j]) by {
        if j < pad.len() {
            assert(micros_chars(m)[j] == '0');
        } else {
            assert(micros_chars(m)[j] == dec_chars(m)[j - pad.len()]);
        }
    }
}

/// The textual form pins the timestamp: no two well-formed timestamps
/// render to the same text.
pub proof fn lemma_ts_chars_injective(a: UnixTimestamp, b: UnixTimestamp)
    requires
        a.wf(),
        b.wf(),
        ts_chars(a) == ts_chars(b),
    ensures
        a == b,
{
    let sa = ts_chars(a);
    let amag: nat = if a.secs < 0 { (-(a.secs as int)) as nat } else { a.secs as nat };
    let bmag: nat = if b.secs < 0 { (-(b.secs as int)) as nat } else { b.secs as nat };
    lemma_dec_chars_digits(amag);
    lemma_dec_chars_digits(bmag);
    lemma_micros_chars_props(a.micros as nat);
    lemma_micros_chars_props(b.micros as nat);
    assert((a.secs < 0) == (b.secs < 0)) by {
        if a.secs < 0 && b.secs >= 0 {
            assert(sa[0] == '-');
            assert(ts_chars(b)[0] == dec_chars(bmag)[0]);
            assert(is_digit(sa[0]));
        }
        if a.secs >= 0 && b.secs < 0 {
            assert(ts_chars(b)[0] == '-');
            assert(sa[0] == dec_chars(amag)[0]);
            assert(is_digit(sa[0]));
        }
    }
    let off: int = if a.secs < 0 { 1 } else { 0 };
    assert(dec_chars(amag).len() == dec_chars(bmag).len()) by {
        assert(sa.len() == off + dec_chars(amag).len() + 7);
        assert(sa.len() == off + dec_chars(bmag).len() + 7);
    }
    assert(dec_chars(amag) =~= dec_chars(bmag)) by {
        assert forall|j: int| 0 <= j < dec_chars(amag).len() implies dec_chars(amag)[j]
            == dec_chars(bmag)[j] by {
            assert(sa[off + j] == dec_chars(amag)[j]);
            assert(ts_chars(b)[off + j] == dec_chars(bmag)[j]);
        }
    }
    lemma_dec_val_dec_chars(amag);
    lemma_dec_val_dec_chars(bmag);
    assert(amag == bmag);
    let mstart: int = off + dec_chars(amag).len() + 1;
    assert(micros_chars(a.micros as nat) =~= micros_chars(b.micros as nat)) by {
        assert forall|j: int| 0 <= j < 6 implies micros_chars(a.micros as nat)[j] == micros_chars(
            b.micros as nat,
        )[j] by {
            assert(sa[mstart + j] == micros_chars(a.micros as nat)[j]);
            assert(ts_chars(b)[mstart + j] == micros_chars(b.micros as nat)[j]);
        }
    }
    assert(a.micros == b.micros);
    assert(a.secs == b.secs);
}

/// One decimal digit as text.
fn digit_str(d: u8) -> (r: &'static str)
    requires
        d < 10,
    ensures
        r@ == seq![hex_digit(d)],
{
    let r: &'static str = if d == 0 { "0" } else if d == 1 { "1" } else if d == 2 { "2" }
    else if d == 3 { "3" } else if d == 4 { "4" } else if d == 5 { "5" } else if d == 6 { "6" }
    else if d == 7 { "7" } else if d == 8 { "8" } else { "9" };
    proof {
        reveal_strlit("0");
        reveal_strlit("1");
        reveal_strlit("2");
        reveal_strlit("3");
        reveal_strlit("4");
        reveal_strlit("5");
        reveal_strlit("6");
        reveal_strlit("7");
        reveal_strlit("8");
        reveal_strlit("9");
        assert(r@ =~= seq![hex_digit(d)]);
    }
    r
}

/// Appends the decimal digits of `n`.
fn push_dec(out: &mut String, n: u64)
    ensures
        final(out)@ == old(out)@ + dec_chars(n as nat),
    decreases n,
{
    if n >= 10 {
        push_dec(out, n / 10);
        let d = (n % 10) as u8;
        out.append(digit_str(d));
        proof {
            assert((n as nat) / 10 == (n / 10) as nat);
            assert(old(out)@ + dec_chars((n / 10) as nat) + seq![hex_digit((n % 10) as u8)]
                =~= old(out)@ + dec_chars(n as nat));
        }
    } else {
        out.append(digit_str(n as u8));
        proof {
            assert(old(out)@ + seq![hex_digit(n as u8)] =~= old(out)@ + dec_chars(n as nat));
        }
    }
}

/// Decides whether two pieces of text hold the same characters.
pub fn str_eq_chars(a: &str, b: &str) -> (r: bool)
    ensures
        r == (a@ == b@),
{
    let an = a.unicode_len();
    let bn = b.unicode_len();
    if an != bn {
        proof {
            assert(a@ != b@);
        }
        return false;
    }
    let mut i: usize = 0;
    while i < an
        invariant
            an == a@.len(),
            an == b@.len(),
            i <= an,
            forall|j: int| 0 <= j < i ==> a@[j] == b@[j],
        decreases an - i,
    {
        if a.get_char(i) != b.get_char(i) {
            proof {
                assert(a@[i as int] != b@[i as int]);
            }
            return false;
        }
        i = i + 1;
    }
    proof {
        assert(a@ =~= b@);
    }
    true
}

impl UnixTimestamp {
    /// The microsecond part names a fraction of one second.
    pub open spec fn wf(self) -> bool {
        self.micros < 1_000_000
    }

    /// Renders the timestamp as seconds-since-epoch text with six decimal
    /// digits of fraction.
    pub fn format(&self) -> (r: String)
        requires
            self.wf(),
        ensures
            r@ == ts_chars(*self),
    {
        let mut out = String::new();
        if self.secs < 0 {
            out.append("-");
            proof {
                reveal_strlit("-");
                assert(out@ =~= seq!['-']);
            }
            let mag: u64 = ((-(self.secs + 1)) as u64) + 1;
            push_dec(&mut out, mag);
            proof {
                assert(mag as nat == (-(self.secs as int)) as nat);
            }
        } else {
            push_dec(&mut out, self.secs as u64);
        }
        out.append(".");
        proof {
            reveal_strlit(".");
            assert("."@ =~= seq!['.']);
        }
        let m = self.micros;
        if m < 10 {
            out.append("00000");
            proof {
                reveal_strlit("00000");
                assert("00000"@ =~= seq!['0', '0', '0', '0', '0']);
            }
        } else if m < 100 {
            out.append("0000");
            proof {
                reveal_strlit("0000");
                assert("0000"@ =~= seq!['0', '0', '0', '0']);
            }
        } else if m < 1_000 {
            out.append("000");
            proof {
                reveal_strlit("000");
                assert("000"@ =~= seq!['0', '0', '0']);
            }
        } else if m < 10_000 {
            out.append("00");
            proof {
                reveal_strlit("00");
                assert("00"@ =~= seq!['0', '0']);
            }
        } else if m < 100_000 {
            out.append("0");
            proof {
                reveal_strlit("0");
                assert("0"@ =~= seq!['0']);
            }
        }
        push_dec(&mut out, m as u64);
        proof {
            assert(out@ =~= ts_chars(*self));
        }
        out
    }

    /// Reads back the textual form: exactly the renderings of well-formed
    /// timestamps are accepted, and the value returned is the one timestamp
    /// that renders to the input.
    #[verifier::rlimit(80)]
    pub fn parse(s: &str) -> (r: Result<UnixTimestamp, WTSError>)
        ensures
            r matches Ok(t) ==> t.wf() && ts_chars(t) == s@,
            (exists|t: UnixTimestamp| t.wf() && ts_chars(t) == s@) ==> r is Ok,
    {
        let ghost has_w = exists|t: UnixTimestamp| t.wf() && ts_chars(t) == s@;
        let ghost w = choose|t: UnixTimestamp| t.wf() && ts_chars(t) == s@;
        let ghost w_neg = w.secs < 0;
        let ghost w_mag: nat = if w.secs < 0 {
            (-(w.secs as int)) as nat
        } else {
            w.secs as nat
        };
        let ghost dstart: int = if w.secs < 0 {
            1int
        } else {
            0int
        };
        let ghost dch = dec_chars(w_mag);
        let ghost dend: int = dstart + dch.len();
        let ghost mch = micros_chars(w.micros as nat);
        proof {
            lemma_pow10_vals();
            if has_w {
                lemma_dec_chars_digits(w_mag);
                lemma_dec_val_dec_chars(w_mag);
                lemma_micros_chars_props(w.micros as nat);
                assert(s@ == ts_chars(w));
                assert(s@.len() == dend + 7);
                assert(w_mag <= 9_223_372_036_854_775_808);
                assert forall|j: int| dstart <= j < dend implies s@[j] == dch[j - dstart] by {}
                assert(s@[dend] == '.');
                assert forall|j: int| 0 <= j < 6 implies s@[dend + 1 + j] == mch[j] by {}
                if w_neg {
                    assert(s@[0] == '-');
                } else {
                    assert(s@[0] == dch[0]);
                    assert(is_digit(s@[0]));
                }
            }
        }
        let n = s.unicode_len();
        let mut i: usize = 0;
        let mut neg = false;
        if n > 0 && s.get_char(0) == '-' {
            neg = true;
            i = 1;
        }
        proof {
            if has_w {
                if !w_neg {
                    assert(48 <= s@[0] as u32 <= 57);
                    assert(s@[0] != '-');
                }
                assert(neg == w_neg);
                assert(i as int == dstart);
            }
        }
        let digits_start = i;
        let mut mag: u64 = 0;
        loop
            invariant
                n == s@.len(),
                digits_start <= i <= n,
                mag <= 9_223_372_036_854_775_808,
                has_w == (exists|t: UnixTimestamp| t.wf() && ts_chars(t) == s@),
                has_w ==> w == (choose|t: UnixTimestamp| t.wf() && ts_chars(t) == s@),
                w_mag == (if w.secs < 0 { (-(w.secs as int)) as nat } else { w.secs as nat }),
                dstart == (if w.secs < 0 { 1int } else { 0int }),
                dch == dec_chars(w_mag),
                dend == dstart + dch.len(),
                has_w ==> digits_start as int == dstart && s@.len() == dend + 7,
                has_w ==> i as int <= dend && mag as nat == dec_val(dch.take(i - dstart)),
            ensures
                i <= n,
                mag <= 9_223_372_036_854_775_808,
                has_w ==> i as int == dend && mag as nat == w_mag,
            decreases n - i,
        {
            proof {
                if has_w {
                    assert(w.wf() && ts_chars(w) == s@);
                    lemma_dec_chars_digits(w_mag);
                    lemma_dec_val_dec_chars(w_mag);
                    lemma_micros_chars_props(w.micros as nat);
                    assert forall|j: int| dstart <= j < dend implies s@[j] == dch[j - dstart] by {}
                    assert(s@[dend] == '.');
                    assert(w_mag <= 9_223_372_036_854_775_808);
                }
            }
            if i >= n {
                break ;
            }
            let cu = s.get_char(i) as u32;
            if cu < 48 || cu > 57 {
                proof {
                    if has_w {
                        if (i as int) < dend {
                            assert(s@[i as int] == dch[i - dstart]);
                            assert(is_digit(dch[i - dstart]));
                            assert(false);
                        }
                        assert(dch.take(dend - dstart) =~= dch);
                    }
                }
                break ;
            }
            proof {
                if has_w {
                    if i as int == dend {
                        assert(s@[i as int] == '.');
                        assert(false);
                    }
                    assert(s@[i as int] == dch[i - dstart]);
                }
            }
            let d64 = (cu - 48) as u64;
            proof {
                if has_w {
                    assert(dch.take(i + 1 - dstart).drop_last() =~= dch.take(i - dstart));
                    assert(dch.take(i + 1 - dstart).last() == dch[i - dstart]);
                    assert(digit_val(dch[i - dstart]) == d64);
                    assert(dec_val(dch.take(i + 1 - dstart)) == mag as nat * 10 + d64);
                    lemma_dec_prefix(w_mag, i + 1 - dstart);
                    assert(mag as nat * 10 + d64 <= w_mag);
                }
            }
            if mag > 922_337_203_685_477_580 || (mag == 922_337_203_685_477_580 && d64 > 8) {
                proof {
                    assert(!has_w);
                }
                return Err(WTSError::Other(String::from_str("timestamp out of range")));
            }
            mag = mag * 10 + d64;
            i = i + 1;
        }
        if i == digits_start {
            proof {
                if has_w {
                    assert(dch.len() >= 1);
                    assert(false);
                }
            }
            return Err(WTSError::Other(String::from_str("malformed timestamp")));
        }
        if i >= n || s.get_char(i) != '.' {
            proof {
                if has_w {
                    assert(s@[dend] == '.');
                    assert(false);
                }
            }
            return Err(WTSError::Other(String::from_str("malformed timestamp")));
        }
        i = i + 1;
        if n < 6 || i != n - 6 {
            proof {
                if has_w {
                    assert(i as int == dend + 1);
                    assert(n as int == dend + 7);
                    assert(false);
                }
            }
            return Err(WTSError::Other(String::from_str("malformed timestamp")));
        }
        let mut frac: u64 = 0;
        while i < n
            invariant
                n == s@.len(),
                n >= 6,
                n - 6 <= i <= n,
                (frac as nat) < pow10((i - (n - 6)) as nat),
                has_w == (exists|t: UnixTimestamp| t.wf() && ts_chars(t) == s@),
                has_w ==> w == (choose|t: UnixTimestamp| t.wf() && ts_chars(t) == s@),
                mch == micros_chars(w.micros as nat),
                has_w ==> frac as nat == dec_val(mch.take(i - (n - 6))),
            decreases n - i,
        {
            let ghost k: int = i - (n - 6);
            proof {
                lemma_pow10_vals();
                if has_w {
                    assert(w.wf() && ts_chars(w) == s@);
                    lemma_dec_chars_digits(if w.secs < 0 { (-(w.secs as int)) as nat } else { w.secs as nat });
                    lemma_micros_chars_props(w.micros as nat);
                    assert forall|j: int| 0 <= j < 6 implies s@[s@.len() - 6 + j] == mch[j] by {}
                }
            }
            let cu = s.get_char(i) as u32;
            if cu < 48 || cu > 57 {
                proof {
                    if has_w {
                        assert(s@[i as int] == mch[k]);
                        assert(is_digit(mch[k]));
                        assert(false);
                    }
                }
                return Err(WTSError::Other(String::from_str("malformed timestamp")));
            }
            let d64 = (cu - 48) as u64;
            proof {
                assert(pow10(k as nat) <= pow10(5)) by {
                    assert(k <= 5);
                    if k <= 0 {
                    } else if k == 1 {
                    } else if k == 2 {
                    } else if k == 3 {
                    } else if k == 4 {
                    }
                }
                assert(frac * 10 + d64 < pow10((k + 1) as nat));
                if has_w {
                    assert(s@[i as int] == mch[k]);
                    assert(mch.take(k + 1).drop_last() =~= mch.take(k));
                    assert(mch.take(k + 1).last() == mch[k]);
                    assert(digit_val(mch[k]) == d64);
                }
            }
            frac = frac * 10 + d64;
            i = i + 1;
        }
        proof {
            assert(frac < 1_000_000);
            if has_w {
                assert(mch.take(6) =~= mch);
                assert(frac as nat == w.micros as nat);
            }
        }
        let secs: i64 = if neg {
            if mag == 9_223_372_036_854_775_808 {
                i64::MIN
            } else {
                -(mag as i64)
            }
        } else {
            if mag == 9_223_372_036_854_775_808 {
                proof {
                    if has_w {
                        assert(w.secs >= 0);
                        assert(w_mag < 9_223_372_036_854_775_808);
                        assert(false);
                    }
                }
                return Err(WTSError::Other(String::from_str("timestamp out of range")));
            }
            mag as i64
        };
        let cand = UnixTimestamp { secs, micros: frac as u32 };
        proof {
            if has_w {
                assert(cand.secs == w.secs);
                assert(cand == w);
            }
        }
        let rendered = cand.format();
        if str_eq_chars(rendered.as_str(), s) {
            Ok(cand)
        } else {
            proof {
                if has_w {
                    assert(rendered@ == ts_chars(w));
                    assert(false);
                }
            }
            Err(WTSError::Other(String::from_str("malformed timestamp")))
        }
    }
}

} // verus!
