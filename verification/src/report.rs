//! Currency rates and the converted report view.
//!
//! A rate is held in fixed point, in ten-thousandths of the target unit per
//! point, so a report value of `10_000` stands for one unit.

use vstd::prelude::*;

use vstd::pervasive::VecAdditionalExecFns;

verus! {

/// One point is worth one ten-thousandth of a unit times this scale.
pub const RATE_SCALE: u64 = 10000;

/// A raw quote for one currency against the dollar, as an external quote
/// service reports it. `value` is the quoted price as text.
#[derive(Debug)]
pub struct USDRate {
    pub code: String,
    pub codein: String,
    pub name: String,
    pub value: String,
}

/// Ghost view of a `USDRate`.
pub ghost struct USDRateView {
    pub code: Seq<char>,
    pub codein: Seq<char>,
    pub name: Seq<char>,
    pub value: Seq<char>,
}

impl View for USDRate {
    type V = USDRateView;

    open spec fn view(&self) -> USDRateView {
        USDRateView {
            code: self.code@,
            codein: self.codein@,
            name: self.name@,
            value: self.value@,
        }
    }
}

impl USDRate {
    /// The quoted price as a fixed-point rate, if the quote is a plain
    /// decimal that fits.
    pub fn rate_e4(&self) -> (r: Option<u64>)
        ensures
            match r {
                Some(v) => is_plain_decimal(self.value@) && v as int == decimal_e4(self.value@),
                None => !is_plain_decimal(self.value@) || decimal_e4(self.value@) > u64::MAX,
            },
    {
        rate_e4_of(self.value.as_str())
    }
}

/// The currency code a quote falls back to: the dollar itself.
pub fn default_code() -> (r: String)
    ensures
        r@ == "USD"@,
{
    "USD".to_owned()
}

/// The name a quote falls back to.
pub fn default_name() -> (r: String)
    ensures
        r@ == "Dolar/Dolar"@,
{
    "Dolar/Dolar".to_owned()
}

/// One rate entry: a currency code and its fixed-point rate.
#[derive(Debug)]
pub struct Rate {
    pub currency: String,
    pub rate_e4: u64,
}

/// Ghost view of a `Rate`.
pub ghost struct RateView {
    pub currency: Seq<char>,
    pub rate_e4: int,
}

impl View for Rate {
    type V = RateView;

    open spec fn view(&self) -> RateView {
        RateView { currency: self.currency@, rate_e4: self.rate_e4 as int }
    }
}

pub open spec fn rate_from(rs: Seq<RateView>, c: Seq<char>, i: int) -> Option<int>
    decreases rs.len() - i,
{
    if i < 0 || i >= rs.len() {
        None
    } else if rs[i].currency == c {
        Some(rs[i].rate_e4)
    } else {
        rate_from(rs, c, i + 1)
    }
}

/// The rate known for a currency, if any.
pub open spec fn spec_rate_of(rs: Seq<RateView>, c: Seq<char>) -> Option<int> {
    rate_from(rs, c, 0)
}

/// Replacing an entry without changing its currency leaves other lookups
/// unchanged.
pub proof fn lemma_rate_from_update_other(rs: Seq<RateView>, j: int, x: RateView, c: Seq<char>, i: int)
    requires
        0 <= j < rs.len(),
        rs[j].currency == x.currency,
        c != x.currency,
    ensures
        rate_from(rs.update(j, x), c, i) == rate_from(rs, c, i),
    decreases rs.len() - i,
{
    if 0 <= i < rs.len() {
        lemma_rate_from_update_other(rs, j, x, c, i + 1);
    }
}

/// Replacing the first entry of a currency makes the lookup return it.
pub proof fn lemma_rate_from_update_same(rs: Seq<RateView>, j: int, x: RateView, i: int)
    requires
        0 <= j < rs.len(),
        x.currency == rs[j].currency,
        0 <= i <= j,
        forall|k: int| i <= k < j ==> (#[trigger] rs[k]).currency != rs[j].currency,
    ensures
        rate_from(rs.update(j, x), x.currency, i) == Some(x.rate_e4),
    decreases j - i,
{
    if i < j {
        lemma_rate_from_update_same(rs, j, x, i + 1);
    }
}

/// Appending an entry for another currency leaves a lookup unchanged.
pub proof fn lemma_rate_from_push_other(rs: Seq<RateView>, x: RateView, c: Seq<char>, i: int)
    requires
        c != x.currency,
    ensures
        rate_from(rs.push(x), c, i) == rate_from(rs, c, i),
    decreases rs.len() + 1 - i,
{
    if i <= rs.len() {
        lemma_rate_from_push_other(rs, x, c, i + 1);
    }
}

/// Appending the first entry of a currency makes the lookup find it.
pub proof fn lemma_rate_from_push_new(rs: Seq<RateView>, x: RateView, i: int)
    requires
        0 <= i <= rs.len(),
        rate_from(rs, x.currency, i) is None,
    ensures
        rate_from(rs.push(x), x.currency, i) == Some(x.rate_e4),
    decreases rs.len() - i,
{
    if i < rs.len() {
        lemma_rate_from_push_new(rs, x, i + 1);
    }
}

/// The numeric value of a run of decimal digits, most significant first.
pub open spec fn dec_value(s: Seq<char>) -> int
    decreases s.len(),
{
    if s.len() == 0 {
        0
    } else {
        dec_value(s.drop_last()) * 10 + (s.last() as u32 - 48)
    }
}

pub open spec fn all_digits(s: Seq<char>) -> bool {
    forall|i: int| 0 <= i < s.len() ==> crate::email::is_digit(#[trigger] s[i])
}

/// The first four fractional digits, scaled to ten-thousandths; digits
/// beyond the fourth are cut off.
pub open spec fn frac_e4(f: Seq<char>) -> int {
    if f.len() >= 4 {
        dec_value(f.subrange(0, 4))
    } else if f.len() == 3 {
        dec_value(f) * 10
    } else if f.len() == 2 {
        dec_value(f) * 100
    } else if f.len() == 1 {
        dec_value(f) * 1000
    } else {
        0
    }
}

/// `s` splits at `dot` into a non-empty run of digits, then optionally a
/// dot and a run of digits. `dot == s.len()` means there is no dot.
pub open spec fn decimal_shape(s: Seq<char>, dot: int) -> bool {
    &&& 0 < dot <= s.len()
    &&& all_digits(s.subrange(0, dot))
    &&& (dot < s.len() ==> s[dot] == '.' && all_digits(s.subrange(dot + 1, s.len() as int)))
}

/// A plain unsigned decimal: digits, optionally a dot and more digits.
pub open spec fn is_plain_decimal(s: Seq<char>) -> bool {
    exists|dot: int| decimal_shape(s, dot)
}

/// The value of a plain decimal in ten-thousandths, fractional digits
/// beyond the fourth cut off.
pub open spec fn decimal_e4(s: Seq<char>) -> int {
    let dot = choose|dot: int| decimal_shape(s, dot);
    dec_value(s.subrange(0, dot)) * 10000 + if dot < s.len() {
        frac_e4(s.subrange(dot + 1, s.len() as int))
    } else {
        0
    }
}

/// A run of digits has a non-negative value.
pub proof fn lemma_dec_nonneg(s: Seq<char>)
    requires
        all_digits(s),
    ensures
        dec_value(s) >= 0,
    decreases s.len(),
{
    if s.len() > 0 {
        assert(all_digits(s.drop_last()));
        lemma_dec_nonneg(s.drop_last());
        assert(s.last() as u32 >= 48);
    }
}

/// A prefix of a digit run is worth no more than the whole run.
pub proof fn lemma_dec_prefix(s: Seq<char>, i: int)
    requires
        all_digits(s),
        0 <= i <= s.len(),
    ensures
        dec_value(s.subrange(0, i)) <= dec_value(s),
    decreases s.len() - i,
{
    if i < s.len() {
        lemma_dec_prefix(s, i + 1);
        assert(s.subrange(0, i + 1).drop_last() =~= s.subrange(0, i));
        assert(all_digits(s.subrange(0, i)));
        lemma_dec_nonneg(s.subrange(0, i));
        assert(s.subrange(0, i + 1).last() as u32 >= 48);
    } else {
        assert(s.subrange(0, i) =~= s);
    }
}

/// A decimal splits at one position only.
pub proof fn lemma_decimal_shape_unique(s: Seq<char>, d1: int, d2: int)
    requires
        decimal_shape(s, d1),
        decimal_shape(s, d2),
    ensures
        d1 == d2,
{
    if d1 < d2 {
        assert(crate::email::is_digit(s.subrange(0, d2)[d1]));
        assert(s[d1] == '.');
    }
    if d2 < d1 {
        assert(crate::email::is_digit(s.subrange(0, d1)[d2]));
        assert(s[d2] == '.');
    }
}

fn digit_e(c: char) -> (r: bool)
    ensures
        r == crate::email::is_digit(c),
{
    '0' <= c && c <= '9'
}

/// The first dot of the string, or its length if there is none.
fn find_dot(s: &str, n: usize) -> (d: usize)
    requires
        n == s@.len(),
    ensures
        d <= n,
        forall|k: int| 0 <= k < d ==> s@[k] != '.',
        d < n ==> s@[d as int] == '.',
{
    let mut d: usize = 0;
    while d < n
        invariant
            n == s@.len(),
            d <= n,
            forall|k: int| 0 <= k < d ==> s@[k] != '.',
        decreases n - d,
    {
        if s.get_char(d) == '.' {
            return d;
        }
        d = d + 1;
    }
    d
}

/// Are the characters of `s[from..to)` all digits?
fn digits_in(s: &str, n: usize, from: usize, to: usize) -> (r: bool)
    requires
        n == s@.len(),
        from <= to <= n,
    ensures
        r == all_digits(s@.subrange(from as int, to as int)),
{
    let ghost sub = s@.subrange(from as int, to as int);
    let mut k: usize = from;
    while k < to
        invariant
            n == s@.len(),
            from <= k <= to <= n,
            sub == s@.subrange(from as int, to as int),
            forall|t: int| 0 <= t < k - from ==> crate::email::is_digit(#[trigger] sub[t]),
        decreases to - k,
    {
        if !digit_e(s.get_char(k)) {
            proof {
                assert(sub[k - from] == s@[k as int]);
            }
            return false;
        }
        k = k + 1;
    }
    true
}

pub open spec fn pow10_small(k: int) -> int {
    if k <= 0 {
        1
    } else if k == 1 {
        10
    } else if k == 2 {
        100
    } else if k == 3 {
        1000
    } else {
        10000
    }
}

/// Parse a quoted price — plain digits with an optional fraction — into
/// ten-thousandths of a unit, cutting fractional digits beyond the fourth.
/// Rejects any other shape, and a value that cannot be stored.
pub fn rate_e4_of(quoted: &str) -> (r: Option<u64>)
    ensures
        match r {
            Some(v) => is_plain_decimal(quoted@) && v as int == decimal_e4(quoted@),
            None => !is_plain_decimal(quoted@) || decimal_e4(quoted@) > u64::MAX,
        },
{
    let ghost s = quoted@;
    let n = quoted.unicode_len();
    if n == 0 {
        proof {
            assert(forall|dot: int| !decimal_shape(s, dot));
        }
        return None;
    }
    let d = find_dot(quoted, n);
    if d == 0 {
        proof {
            assert forall|dot: int| !decimal_shape(s, dot) by {
                if 0 < dot <= s.len() {
                    assert(s.subrange(0, dot)[0] == s[0]);
                }
            }
        }
        return None;
    }
    if !digits_in(quoted, n, 0, d) {
        proof {
            let bad = choose|t: int|
                0 <= t < d && !crate::email::is_digit(s.subrange(0, d as int)[t]);
            assert forall|dot: int| !decimal_shape(s, dot) by {
                if 0 < dot <= s.len() {
                    if dot > bad {
                        assert(s.subrange(0, dot)[bad] == s[bad]);
                        assert(s.subrange(0, d as int)[bad] == s[bad]);
                    } else {
                        assert(s[dot] != '.');
                    }
                }
            }
        }
        return None;
    }
    if d < n {
        if !digits_in(quoted, n, d + 1, n) {
            proof {
                let f = s.subrange(d as int + 1, s.len() as int);
                let bad = choose|t: int| 0 <= t < f.len() && !crate::email::is_digit(f[t]);
                assert(f[bad] == s[d + 1 + bad]);
                assert forall|dot: int| !decimal_shape(s, dot) by {
                    if 0 < dot <= s.len() {
                        if dot > d as int {
                            assert(s.subrange(0, dot)[d as int] == s[d as int]);
                        } else if dot < d as int {
                            assert(s[dot] != '.');
                        } else {
                            assert(s.subrange(dot + 1, s.len() as int)[bad] == s[d + 1 + bad]);
                        }
                    }
                }
            }
            return None;
        }
    }
    proof {
        assert(s.subrange(0, d as int) == s.subrange(0, d as int));
        assert(decimal_shape(s, d as int));
        let cd = choose|dot: int| decimal_shape(s, dot);
        lemma_decimal_shape_unique(s, cd, d as int);
    }
    let ghost ipart = s.subrange(0, d as int);
    let mut acc: u128 = 0;
    let mut i: usize = 0;
    while i < d
        invariant
            n == s.len(),
            s == quoted@,
            i <= d <= n,
            d == 0 || decimal_shape(s, d as int),
            ipart == s.subrange(0, d as int),
            all_digits(ipart),
            acc as int == dec_value(s.subrange(0, i as int)),
            acc <= u64::MAX as u128,
        decreases d - i,
    {
        let c = quoted.get_char(i);
        proof {
            assert(ipart[i as int] == s[i as int]);
            assert(s.subrange(0, i as int + 1).drop_last() =~= s.subrange(0, i as int));
        }
        let acc2: u128 = acc * 10 + ((c as u32) - 48) as u128;
        if acc2 > u64::MAX as u128 {
            proof {
                assert(acc2 as int == dec_value(s.subrange(0, i as int + 1)));
                assert(s.subrange(0, d as int).subrange(0, i as int + 1) =~= s.subrange(
                    0,
                    i as int + 1,
                ));
                lemma_dec_prefix(ipart, i as int + 1);
                lemma_dec_nonneg(ipart);
                if d < n {
                    let f = s.subrange(d as int + 1, s.len() as int);
                    lemma_frac_nonneg(f);
                }
                let cd = choose|dot: int| decimal_shape(s, dot);
                lemma_decimal_shape_unique(s, cd, d as int);
                assert(decimal_e4(s) > u64::MAX);
            }
            return None;
        }
        acc = acc2;
        i = i + 1;
    }
    let mut facc: u64 = 0;
    let mut cnt: usize = 0;
    if d < n {
        let mut j: usize = d + 1;
        while j < n && cnt < 4
            invariant
                n == s.len(),
                s == quoted@,
                d < n,
                decimal_shape(s, d as int),
                cnt <= 4,
                j == d + 1 + cnt,
                j <= n,
                facc as int == dec_value(s.subrange(d as int + 1, j as int)),
                (facc as int) < pow10_small(cnt as int),
            decreases n - j,
        {
            let c = quoted.get_char(j);
            proof {
                let f = s.subrange(d as int + 1, s.len() as int);
                assert(f[j - d - 1] == s[j as int]);
                assert(s.subrange(d as int + 1, j as int + 1).drop_last() =~= s.subrange(
                    d as int + 1,
                    j as int,
                ));
            }
            facc = facc * 10 + ((c as u32) - 48) as u64;
            cnt = cnt + 1;
            j = j + 1;
        }
    }
    let scaled: u64 = if cnt >= 4 {
        facc
    } else if cnt == 3 {
        facc * 10
    } else if cnt == 2 {
        facc * 100
    } else if cnt == 1 {
        facc * 1000
    } else {
        0
    };
    proof {
        assert(s.subrange(0, d as int) =~= ipart);
        if d < n {
            let f = s.subrange(d as int + 1, s.len() as int);
            if f.len() >= 4 {
                assert(cnt == 4);
                assert(s.subrange(d as int + 1, d as int + 5) =~= f.subrange(0, 4));
            } else {
                assert(cnt == f.len());
                assert(s.subrange(d as int + 1, s.len() as int) =~= f);
            }
            assert(scaled as int == frac_e4(f));
        } else {
            assert(cnt == 0 && scaled == 0);
        }
    }
    let total: u128 = acc * 10000 + scaled as u128;
    proof {
        let cd = choose|dot: int| decimal_shape(s, dot);
        lemma_decimal_shape_unique(s, cd, d as int);
        assert(total as int == decimal_e4(s));
    }
    if total > u64::MAX as u128 {
        return None;
    }
    Some(total as u64)
}

/// The scaled fraction is non-negative.
pub proof fn lemma_frac_nonneg(f: Seq<char>)
    requires
        all_digits(f),
    ensures
        frac_e4(f) >= 0,
{
    if f.len() >= 4 {
        assert(all_digits(f.subrange(0, 4)));
        lemma_dec_nonneg(f.subrange(0, 4));
    } else {
        lemma_dec_nonneg(f);
    }
}

/// The rate table handed to report building: currency code to fixed-point
/// rate.
#[derive(Debug)]
pub struct RateTable {
    pub entries: Vec<Rate>,
}

impl View for RateTable {
    type V = Seq<RateView>;

    open spec fn view(&self) -> Seq<RateView> {
        crate::ledger::view_seq(self.entries@)
    }
}

impl RateTable {
    /// A table that already quotes the dollar at one, as every rate source
    /// must.
    pub fn with_usd() -> (t: RateTable)
        ensures
            spec_rate_of(t@, "USD"@) == Some(RATE_SCALE as int),
            forall|c: Seq<char>| c != "USD"@ ==> #[trigger] spec_rate_of(t@, c) is None,
    {
        let mut entries: Vec<Rate> = Vec::new();
        entries.push(Rate { currency: default_code(), rate_e4: RATE_SCALE });
        let t = RateTable { entries };
        proof {
            assert(t@[0].currency == "USD"@);
            assert forall|c: Seq<char>| c != "USD"@ implies #[trigger] spec_rate_of(t@, c)
                is None by {
                assert(rate_from(t@, c, 1) is None);
            }
        }
        t
    }

    /// Record the rate for a currency, replacing any earlier quote.
    pub fn add_rate(&mut self, currency: String, rate_e4: u64)
        ensures
            spec_rate_of(final(self)@, currency@) == Some(rate_e4 as int),
            forall|c: Seq<char>|
                c != currency@ ==> #[trigger] spec_rate_of(final(self)@, c) == spec_rate_of(
                    old(self)@,
                    c,
                ),
    {
        let ghost pre = self@;
        let n = self.entries.len();
        let mut i: usize = 0;
        while i < n
            invariant
                n == self.entries.len(),
                i <= n,
                pre == self@,
                pre == old(self)@,
                forall|k: int| 0 <= k < i ==> (#[trigger] self@[k]).currency != currency@,
            decreases n - i,
        {
            if self.entries[i].currency.eq(&currency) {
                let x = Rate { currency: currency.clone(), rate_e4 };
                let ghost xv = x@;
                self.entries.set(i, x);
                proof {
                    assert(self@ =~= pre.update(i as int, xv));
                    lemma_rate_from_update_same(pre, i as int, xv, 0);
                    assert forall|c: Seq<char>|
                        c != xv.currency implies #[trigger] spec_rate_of(self@, c)
                        == spec_rate_of(pre, c) by {
                        lemma_rate_from_update_other(pre, i as int, xv, c, 0);
                    }
                    assert(spec_rate_of(self@, xv.currency) == Some(xv.rate_e4));
                }
                return ;
            }
            i = i + 1;
        }
        let x = Rate { currency: currency.clone(), rate_e4 };
        let ghost xv = x@;
        self.entries.push(x);
        proof {
            assert(self@ =~= pre.push(xv));
            lemma_rate_from_absent(pre, xv.currency);
            lemma_rate_from_push_new(pre, xv, 0);
            assert forall|c: Seq<char>|
                c != xv.currency implies #[trigger] spec_rate_of(self@, c) == spec_rate_of(
                pre,
                c,
            ) by {
                lemma_rate_from_push_other(pre, xv, c, 0);
            }
        }
    }

    /// The rate for a currency, if one is known.
    pub fn get_rate(&self, currency: &String) -> (r: Option<u64>)
        ensures
            match r {
                Some(v) => spec_rate_of(self@, currency@) == Some(v as int),
                None => spec_rate_of(self@, currency@) is None,
            },
    {
        let n = self.entries.len();
        let mut i: usize = 0;
        while i < n
            invariant
                n == self.entries.len(),
                i <= n,
                rate_from(self@, currency@, 0) == rate_from(self@, currency@, i as int),
            decreases n - i,
        {
            if self.entries[i].currency.eq(currency) {
                return Some(self.entries[i].rate_e4);
            }
            i = i + 1;
        }
        None
    }
}

/// A currency with no entry from `i` on is not found.
pub proof fn lemma_rate_from_absent(rs: Seq<RateView>, c: Seq<char>)
    ensures
        (forall|k: int| 0 <= k < rs.len() ==> (#[trigger] rs[k]).currency != c) ==> rate_from(
            rs,
            c,
            0,
        ) is None,
{
    lemma_rate_from_absent_from(rs, c, 0);
}

proof fn lemma_rate_from_absent_from(rs: Seq<RateView>, c: Seq<char>, i: int)
    requires
        0 <= i,
    ensures
        (forall|k: int| 0 <= k < rs.len() ==> (#[trigger] rs[k]).currency != c) ==> rate_from(
            rs,
            c,
            i,
        ) is None,
    decreases rs.len() - i,
{
    if i < rs.len() {
        lemma_rate_from_absent_from(rs, c, i + 1);
    }
}

} // verus!
