//! The amortization engine.
//!
//! `compute_schedule` turns loan terms into the ordered sequence of
//! per-period payment records. All arithmetic is exact: the periodic
//! rate is the fraction `annual_rate_percent / 1200`, the fixed payment
//! comes from the annuity formula, and each period's interest, principal
//! and remaining balance satisfy the textbook recurrence as equalities
//! between rationals, so the final balance is exactly zero.

use vstd::prelude::*;
use vstd::arithmetic::power::{pow, lemma_pow0, lemma_pow1, lemma_pow_adds, lemma_pow_positive};
use crate::bignat::BigNat;
use crate::rat::{Rat, rnum, rden, rat_wf, rat_eq, rat_lt, rat_is_sum, rat_is_diff};

verus! {

/// The engine's only failure: terms outside its domain.
#[derive(Debug)]
pub enum ScheduleError {
    InvalidInput,
}

/// The three inputs of a loan: amount borrowed, nominal yearly rate in
/// percent, and the number of monthly payment periods.
pub struct LoanTerms {
    pub principal: Rat,
    pub annual_rate_percent: Rat,
    pub term_periods: usize,
}

/// One period's line of the schedule.
pub struct PaymentRecord {
    pub period_number: usize,
    pub principal_component: Rat,
    pub interest_component: Rat,
    pub total_payment: Rat,
    pub remaining_balance: Rat,
}

/// Both rational inputs have positive denominators.
pub open spec fn terms_wf(t: LoanTerms) -> bool {
    rat_wf(t.principal) && rat_wf(t.annual_rate_percent)
}

/// The terms the engine accepts: positive principal, non-negative rate,
/// at least one period.
pub open spec fn terms_valid(t: LoanTerms) -> bool {
    rnum(t.principal) > 0 && rnum(t.annual_rate_percent) >= 0 && t.term_periods >= 1
}

/// Numerator of the periodic rate.
pub open spec fn rate_num(t: LoanTerms) -> int {
    rnum(t.annual_rate_percent)
}

/// Denominator of the periodic rate: the yearly percentage is divided by
/// 12 months and by 100, hence the factor 1200.
pub open spec fn rate_den(t: LoanTerms) -> int {
    rden(t.annual_rate_percent) * 1200
}

/// Numerator of one plus the periodic rate, over `rate_den`.
pub open spec fn growth(t: LoanTerms) -> int {
    rate_num(t) + rate_den(t)
}

/// The balance owed just before record `i` is paid: the principal for
/// the first period, afterwards the previous record's remaining balance.
pub open spec fn balance_before(t: LoanTerms, s: Seq<PaymentRecord>, i: int) -> Rat {
    if i == 0 {
        t.principal
    } else {
        s[i - 1].remaining_balance
    }
}

/// `q` is exactly one period's interest on the balance `bal`, that is,
/// `bal * annual_rate_percent / 1200`.
pub open spec fn is_periodic_interest(bal: Rat, t: LoanTerms, q: Rat) -> bool {
    rnum(bal) * rate_num(t) * rden(q) == rnum(q) * (rden(bal) * rate_den(t))
}

/// `pay` is exactly the fixed periodic payment: `principal / term_periods`
/// when the rate is zero, else the annuity formula
/// `principal * r * (1+r)^n / ((1+r)^n - 1)` written over the common
/// denominator `rate_den`.
pub open spec fn is_annuity_payment(t: LoanTerms, pay: Rat) -> bool {
    let pn = rnum(t.principal);
    let pd = rden(t.principal);
    let a = rate_num(t);
    let b = rate_den(t);
    let c = growth(t);
    let n = t.term_periods as nat;
    if a == 0 {
        rnum(pay) * (pd * (t.term_periods as int)) == pn * rden(pay)
    } else {
        rnum(pay) * (pd * (b * (pow(c, n) - pow(b, n)))) == (pn * (a * pow(c, n))) * rden(pay)
    }
}

/// All amounts of a record are well-formed, non-negative rationals.
pub open spec fn record_wf(r: PaymentRecord) -> bool {
    &&& rat_wf(r.principal_component)
    &&& rat_wf(r.interest_component)
    &&& rat_wf(r.total_payment)
    &&& rat_wf(r.remaining_balance)
    &&& rnum(r.principal_component) >= 0
    &&& rnum(r.interest_component) >= 0
    &&& rnum(r.total_payment) >= 0
    &&& rnum(r.remaining_balance) >= 0
}

/// Everything one record promises: its position, the recurrence that
/// produced it, the fixed payment it carries, and the strict decay of
/// the balance.
pub open spec fn record_ok(t: LoanTerms, s: Seq<PaymentRecord>, i: int) -> bool {
    &&& s[i].period_number == i + 1
    &&& record_wf(s[i])
    &&& is_periodic_interest(balance_before(t, s, i), t, s[i].interest_component)
    &&& rat_is_sum(s[i].principal_component, s[i].interest_component, s[i].total_payment)
    &&& rat_is_diff(balance_before(t, s, i), s[i].principal_component, s[i].remaining_balance)
    &&& is_annuity_payment(t, s[i].total_payment)
    &&& rat_lt(s[i].remaining_balance, balance_before(t, s, i))
    &&& (rate_num(t) == 0 ==> rnum(s[i].interest_component) == 0)
}

pub open spec fn records_consistent(t: LoanTerms, s: Seq<PaymentRecord>) -> bool {
    forall|i: int| 0 <= i < s.len() ==> #[trigger] record_ok(t, s, i)
}

/// The full schedule contract: one record per period, each satisfying
/// the recurrence, the same payment in every record, and a final
/// balance of exactly zero.
pub open spec fn schedule_ok(t: LoanTerms, s: Seq<PaymentRecord>) -> bool {
    &&& s.len() == t.term_periods
    &&& records_consistent(t, s)
    &&& (forall|i: int|
        0 <= i < s.len() ==> rat_eq((#[trigger] s[i]).total_payment, s[0].total_payment))
    &&& (s.len() > 0 ==> rnum(s[s.len() - 1].remaining_balance) == 0)
}

/// `pow(b, e) <= pow(c, e)` for `0 <= b <= c`, and both are non-negative.
proof fn lemma_pow_le_base(b: int, c: int, e: nat)
    requires
        0 <= b <= c,
    ensures
        0 <= pow(b, e) <= pow(c, e),
    decreases e,
{
    reveal(pow);
    if e == 0 {
    } else {
        lemma_pow_le_base(b, c, (e - 1) as nat);
        assert(0 <= b * pow(b, (e - 1) as nat) <= c * pow(c, (e - 1) as nat))
            by (nonlinear_arith)
            requires
                0 <= b <= c,
                0 <= pow(b, (e - 1) as nat) <= pow(c, (e - 1) as nat),
        ;
    }
}

/// `pow(b, e) < pow(c, e)` for `1 <= b < c` and `e >= 1`.
proof fn lemma_pow_lt_base(b: int, c: int, e: nat)
    requires
        1 <= b < c,
        e >= 1,
    ensures
        pow(b, e) < pow(c, e),
    decreases e,
{
    reveal(pow);
    if e == 1 {
        lemma_pow1(b);
        lemma_pow1(c);
    } else {
        lemma_pow_lt_base(b, c, (e - 1) as nat);
        lemma_pow_positive(b, (e - 1) as nat);
        assert(b * pow(b, (e - 1) as nat) < c * pow(c, (e - 1) as nat)) by (nonlinear_arith)
            requires
                1 <= b < c,
                0 < pow(b, (e - 1) as nat) < pow(c, (e - 1) as nat),
        ;
    }
}

/// Two well-formed rationals that both satisfy the annuity-payment
/// equation denote the same number: the formula has one solution, so
/// the payment is constant across a schedule.
proof fn lemma_payment_unique(t: LoanTerms, x: Rat, y: Rat)
    requires
        terms_wf(t),
        terms_valid(t),
        rat_wf(x),
        rat_wf(y),
        is_annuity_payment(t, x),
        is_annuity_payment(t, y),
    ensures
        rat_eq(x, y),
{
    let pn = rnum(t.principal);
    let pd = rden(t.principal);
    let a = rate_num(t);
    let b = rate_den(t);
    let c = growth(t);
    let n = t.term_periods as nat;
    if a == 0 {
        let dd = pd * (t.term_periods as int);
        let kk = pn;
        assert(dd >= 1) by (nonlinear_arith)
            requires
                dd == pd * (t.term_periods as int),
                pd >= 1,
                t.term_periods >= 1,
        ;
        assert(rnum(x) * dd * rden(y) == kk * rden(x) * rden(y)) by (nonlinear_arith)
            requires
                rnum(x) * dd == kk * rden(x),
        ;
        assert(rnum(y) * dd * rden(x) == kk * rden(x) * rden(y)) by (nonlinear_arith)
            requires
                rnum(y) * dd == kk * rden(y),
        ;
        assert(rnum(x) * rden(y) == rnum(y) * rden(x)) by (nonlinear_arith)
            requires
                rnum(x) * dd * rden(y) == rnum(y) * dd * rden(x),
                dd >= 1,
        ;
    } else {
        assert(b >= 1200) by (nonlinear_arith)
            requires
                b == rden(t.annual_rate_percent) * 1200,
                rden(t.annual_rate_percent) >= 1,
        ;
        lemma_pow_lt_base(b, c, n);
        let dd = pd * (b * (pow(c, n) - pow(b, n)));
        let kk = pn * (a * pow(c, n));
        assert(dd >= 1) by (nonlinear_arith)
            requires
                dd == pd * (b * (pow(c, n) - pow(b, n))),
                pd >= 1,
                b >= 1,
                pow(c, n) - pow(b, n) >= 1,
        ;
        assert(rnum(x) * dd * rden(y) == kk * rden(x) * rden(y)) by (nonlinear_arith)
            requires
                rnum(x) * dd == kk * rden(x),
        ;
        assert(rnum(y) * dd * rden(x) == kk * rden(x) * rden(y)) by (nonlinear_arith)
            requires
                rnum(y) * dd == kk * rden(y),
        ;
        assert(rnum(x) * rden(y) == rnum(y) * rden(x)) by (nonlinear_arith)
            requires
                rnum(x) * dd * rden(y) == rnum(y) * dd * rden(x),
                dd >= 1,
        ;
    }
}

/// The arithmetic of one period at a positive rate, over the scaled
/// integer numerators: interest never exceeds the payment, the principal
/// part is strictly positive, and the balance numerator keeps its closed
/// form with the exponents advanced by one.
proof fn lemma_period_algebra(
    pn: int,
    a: int,
    b: int,
    c: int,
    pc1: int,
    pb1: int,
    qc1: int,
    qb1: int,
    pck: int,
    pbk: int,
    qck: int,
    qbk: int,
    pcn: int,
    prev: int,
    pay: int,
    intr: int,
)
    requires
        pn >= 1,
        a >= 1,
        b >= 1,
        c == a + b,
        pc1 >= 1,
        pb1 >= 1,
        qc1 >= 1,
        qb1 >= 1,
        pck >= 1,
        pbk >= 1,
        qck >= 1,
        qbk >= 1,
        pcn >= 1,
        pck == pc1 * c,
        pbk == pb1 * b,
        qc1 == qck * c,
        qb1 == qbk * b,
        pcn == pc1 * qc1,
        qck >= qbk,
        qc1 >= qb1,
        prev == pn * pc1 * pb1 * (qc1 - qb1),
        pay == pn * a * pcn * pb1,
        intr == prev * a,
    ensures
        pay - intr == pn * a * pb1 * pc1 * qb1,
        intr < pay,
        prev * b - (pay - intr) == pn * pck * pbk * (qck - qbk),
        pay - intr <= prev * b,
        prev >= 0,
{
    let u = pn * pc1 * pb1;
    let t = u * a;
    assert(prev == u * (qc1 - qb1)) by (nonlinear_arith)
        requires
            prev == pn * pc1 * pb1 * (qc1 - qb1),
            u == pn * pc1 * pb1,
    ;
    assert(u >= 1 && t >= 1) by (nonlinear_arith)
        requires
            u == pn * pc1 * pb1,
            t == u * a,
            pn >= 1,
            pc1 >= 1,
            pb1 >= 1,
            a >= 1,
    ;
    assert(pay == t * qc1) by (nonlinear_arith)
        requires
            pay == pn * a * pcn * pb1,
            pcn == pc1 * qc1,
            u == pn * pc1 * pb1,
            t == u * a,
    ;
    assert(intr == t * (qc1 - qb1)) by (nonlinear_arith)
        requires
            intr == prev * a,
            prev == u * (qc1 - qb1),
            t == u * a,
    ;
    assert(pay - intr == t * qb1) by (nonlinear_arith)
        requires
            pay == t * qc1,
            intr == t * (qc1 - qb1),
    ;
    assert(t * qb1 == pn * a * pb1 * pc1 * qb1) by (nonlinear_arith)
        requires
            t == u * a,
            u == pn * pc1 * pb1,
    ;
    assert(t * qb1 >= 1) by (nonlinear_arith)
        requires
            t >= 1,
            qb1 >= 1,
    ;
    assert(prev * b - (pay - intr) == u * (b * qc1 - c * qb1)) by (nonlinear_arith)
        requires
            prev == u * (qc1 - qb1),
            pay - intr == t * qb1,
            t == u * a,
            c == a + b,
    ;
    assert(b * qc1 - c * qb1 == b * c * (qck - qbk)) by (nonlinear_arith)
        requires
            qc1 == qck * c,
            qb1 == qbk * b,
    ;
    assert(u * (b * c * (qck - qbk)) == pn * pck * pbk * (qck - qbk)) by (nonlinear_arith)
        requires
            u == pn * pc1 * pb1,
            pck == pc1 * c,
            pbk == pb1 * b,
    ;
    assert(pn * pck * pbk * (qck - qbk) >= 0) by (nonlinear_arith)
        requires
            pn >= 1,
            pck >= 1,
            pbk >= 1,
            qck >= qbk,
    ;
    assert(prev >= 0) by (nonlinear_arith)
        requires
            prev == u * (qc1 - qb1),
            u >= 1,
            qc1 >= qb1,
    ;
}

/// `x` to the `e`-th power.
fn big_pow(x: &BigNat, e: usize) -> (r: BigNat)
    ensures
        r@ as int == pow(x@ as int, e as nat),
{
    let mut r = BigNat::from_u64(1);
    let mut t: usize = 0;
    proof {
        lemma_pow0(x@ as int);
    }
    while t < e
        invariant
            t <= e,
            r@ as int == pow(x@ as int, t as nat),
        decreases e - t,
    {
        r = r.mul(x);
        proof {
            lemma_pow_adds(x@ as int, t as nat, 1);
            lemma_pow1(x@ as int);
        }
        t = t + 1;
    }
    r
}

/// The relations of the one record just pushed in the zero-rate case,
/// over its integer numerators. `m` is the number of periods still open
/// before this payment.
proof fn lemma_zero_record(
    pn: int,
    pd: int,
    nn: int,
    dd: int,
    m: int,
    prev_n: int,
    prev_d: int,
    rem_n: int,
)
    by (nonlinear_arith)
    requires
        pn >= 1,
        pd >= 1,
        nn >= 1,
        m >= 1,
        dd == pd * nn,
        prev_d >= 1,
        prev_n * dd == pn * m * prev_d,
        rem_n == pn * (m - 1),
    ensures
        (pn * dd + 0 * dd) * dd == pn * (dd * dd),
        (prev_n * dd - pn * prev_d) * dd == rem_n * (prev_d * dd),
        rem_n * prev_d < prev_n * dd,
        dd >= 1,
        rem_n >= 0,
{
}

/// Builds the schedule when the rate is exactly zero: the payment is
/// `principal / term_periods`, interest is zero, and the balance falls
/// linearly to zero.
#[verifier::rlimit(60)]
fn compute_zero_rate(terms: &LoanTerms) -> (s: Vec<PaymentRecord>)
    requires
        terms_wf(*terms),
        terms_valid(*terms),
        terms.term_periods < usize::MAX,
        rate_num(*terms) == 0,
    ensures
        schedule_ok(*terms, s@),
{
    let n = terms.term_periods;
    let ghost gpn = rnum(terms.principal);
    let ghost gpd = rden(terms.principal);
    let nb = BigNat::from_u64(n as u64);
    let den = terms.principal.den.mul(&nb);
    let mut sched: Vec<PaymentRecord> = Vec::new();
    let mut k: usize = 1;
    while k <= n
        invariant
            1 <= k <= n + 1,
            n == terms.term_periods,
            n < usize::MAX,
            terms_wf(*terms),
            terms_valid(*terms),
            rate_num(*terms) == 0,
            gpn == rnum(terms.principal),
            gpd == rden(terms.principal),
            den@ as int == gpd * (n as int),
            sched@.len() == k - 1,
            records_consistent(*terms, sched@),
            k >= 2 ==> rnum(sched@[k - 2].remaining_balance) == gpn * ((n - k + 1) as int)
                && rden(sched@[k - 2].remaining_balance) == den@ as int,
        decreases n - k + 1,
    {
        let ghost old_sched = sched@;
        let rem_num = terms.principal.num.mul(&BigNat::from_u64((n - k) as u64));
        let rec = PaymentRecord {
            period_number: k,
            principal_component: Rat {
                neg: false,
                num: terms.principal.num.duplicate(),
                den: den.duplicate(),
            },
            interest_component: Rat { neg: false, num: BigNat::zero(), den: den.duplicate() },
            total_payment: Rat {
                neg: false,
                num: terms.principal.num.duplicate(),
                den: den.duplicate(),
            },
            remaining_balance: Rat { neg: false, num: rem_num, den: den.duplicate() },
        };
        sched.push(rec);
        proof {
            let gi = sched@.len() - 1;
            let dd = den@ as int;
            let m = n - k + 1;
            let prev = balance_before(*terms, sched@, gi);
            assert(gpn == terms.principal.num@ as int);
            assert(dd >= 1) by (nonlinear_arith)
                requires
                    dd == gpd * (n as int),
                    gpd >= 1,
                    n >= 1,
            ;
            assert(rden(prev) >= 1);
            assert(rnum(sched@[gi].remaining_balance) == gpn * (m - 1));
            assert(rnum(prev) * dd == gpn * m * rden(prev)) by (nonlinear_arith)
                requires
                    dd == gpd * (n as int),
                    gi == 0 ==> rnum(prev) == gpn && rden(prev) == gpd && m == n as int,
                    gi >= 1 ==> rnum(prev) == gpn * m && rden(prev) == dd,
                    gi >= 0,
            ;
            lemma_zero_record(
                gpn,
                gpd,
                n as int,
                dd,
                m,
                rnum(prev),
                rden(prev),
                rnum(sched@[gi].remaining_balance),
            );
            assert(rnum(prev) * rate_num(*terms) * rden(sched@[gi].interest_component) == 0)
                by (nonlinear_arith)
                requires
                    rate_num(*terms) == 0,
            ;
            assert(rnum(sched@[gi].interest_component) * (rden(prev) * rate_den(*terms)) == 0)
                by (nonlinear_arith)
                requires
                    rnum(sched@[gi].interest_component) == 0,
            ;
            assert(record_ok(*terms, sched@, gi));
            assert forall|i: int| 0 <= i < sched@.len() implies #[trigger] record_ok(
                *terms,
                sched@,
                i,
            ) by {
                if i < gi {
                    assert(record_ok(*terms, old_sched, i));
                    assert(sched@[i] == old_sched[i]);
                    assert(balance_before(*terms, sched@, i) == balance_before(
                        *terms,
                        old_sched,
                        i,
                    ));
                }
            }
        }
        k = k + 1;
    }
    proof {
        assert(rnum(sched@[n - 1].remaining_balance) == gpn * ((n - (n + 1) + 1) as int));
        assert(rnum(sched@[n - 1].remaining_balance) == 0) by (nonlinear_arith)
            requires
                rnum(sched@[n - 1].remaining_balance) == gpn * ((n - (n + 1) + 1) as int),
        ;
        assert forall|i: int| 0 <= i < sched@.len() implies rat_eq(
            (#[trigger] sched@[i]).total_payment,
            sched@[0].total_payment,
        ) by {
            assert(record_ok(*terms, sched@, i));
            assert(record_ok(*terms, sched@, 0));
            lemma_payment_unique(*terms, sched@[i].total_payment, sched@[0].total_payment);
        }
    }
    sched
}

/// Builds the schedule at a positive rate. The loop keeps, for period
/// `k`, every amount as an integer numerator over the common denominator
/// `pd * b^k * (c^n - b^n)`, with `b = rate_den` and `c = b + rate_num`:
/// at that scale the annuity recurrence is exact integer arithmetic.
#[verifier::rlimit(60)]
fn compute_positive_rate(terms: &LoanTerms) -> (s: Vec<PaymentRecord>)
    requires
        terms_wf(*terms),
        terms_valid(*terms),
        terms.term_periods < usize::MAX,
        rate_num(*terms) > 0,
    ensures
        schedule_ok(*terms, s@),
{
    let n = terms.term_periods;
    let ghost gn = n as nat;
    let ghost gpn = rnum(terms.principal);
    let ghost gpd = rden(terms.principal);
    let ghost ga = rate_num(*terms);
    let b = terms.annual_rate_percent.den.mul_small(1200);
    let c = terms.annual_rate_percent.num.add(&b);
    let ghost gb = b@ as int;
    let ghost gc = c@ as int;
    let cn = big_pow(&c, n);
    let bn = big_pow(&b, n);
    proof {
        assert(ga == terms.annual_rate_percent.num@ as int);
        assert(gpn == terms.principal.num@ as int);
        lemma_pow_lt_base(gb, gc, gn);
    }
    let e = cn.sub(&bn);
    let mut pay_num = terms.principal.num.mul(&terms.annual_rate_percent.num).mul(&cn);
    let mut prev_num = terms.principal.num.mul(&e);
    let mut prev_den = terms.principal.den.mul(&e);
    proof {
        lemma_pow0(gc);
        lemma_pow0(gb);
        assert(prev_num@ as int == gpn * pow(gc, 0) * pow(gb, 0) * (pow(gc, gn) - pow(gb, gn))
            && prev_den@ as int == gpd * pow(gb, 0) * (pow(gc, gn) - pow(gb, gn))
            && pay_num@ as int == gpn * ga * pow(gc, gn) * pow(gb, 0)) by (nonlinear_arith)
            requires
                pow(gc, 0) == 1,
                pow(gb, 0) == 1,
                prev_num@ as int == gpn * (pow(gc, gn) - pow(gb, gn)),
                prev_den@ as int == gpd * (pow(gc, gn) - pow(gb, gn)),
                pay_num@ as int == gpn * ga * pow(gc, gn),
        ;
    }
    let mut sched: Vec<PaymentRecord> = Vec::new();
    let mut k: usize = 1;
    while k <= n
        invariant
            1 <= k <= n + 1,
            n == terms.term_periods,
            n >= 1,
            n < usize::MAX,
            gn == n as nat,
            terms_wf(*terms),
            terms_valid(*terms),
            gpn == rnum(terms.principal),
            gpd == rden(terms.principal),
            ga == rate_num(*terms),
            ga >= 1,
            gb == rate_den(*terms),
            gb == b@ as int,
            gb >= 1200,
            gc == growth(*terms),
            pow(gc, gn) - pow(gb, gn) >= 1,
            prev_num@ as int == gpn * pow(gc, (k - 1) as nat) * pow(gb, (k - 1) as nat) * (pow(
                gc,
                (n - k + 1) as nat,
            ) - pow(gb, (n - k + 1) as nat)),
            prev_den@ as int == gpd * pow(gb, (k - 1) as nat) * (pow(gc, gn) - pow(gb, gn)),
            pay_num@ as int == gpn * ga * pow(gc, gn) * pow(gb, (k - 1) as nat),
            sched@.len() == k - 1,
            records_consistent(*terms, sched@),
            k >= 2 ==> rnum(sched@[k - 2].remaining_balance) == prev_num@ as int && rden(
                sched@[k - 2].remaining_balance,
            ) == prev_den@ as int,
        decreases n - k + 1,
    {
        let ghost old_sched = sched@;
        let ghost pc1 = pow(gc, (k - 1) as nat);
        let ghost pb1 = pow(gb, (k - 1) as nat);
        let ghost qc1 = pow(gc, (n - k + 1) as nat);
        let ghost qb1 = pow(gb, (n - k + 1) as nat);
        let ghost pck = pow(gc, k as nat);
        let ghost pbk = pow(gb, k as nat);
        let ghost qck = pow(gc, (n - k) as nat);
        let ghost qbk = pow(gb, (n - k) as nat);
        let ghost pcn = pow(gc, gn);
        proof {
            assert(terms.annual_rate_percent.num@ as int == ga);
            assert(terms.principal.num@ as int == gpn);
            lemma_pow0(gc);
            lemma_pow0(gb);
            lemma_pow_adds(gc, (k - 1) as nat, 1);
            lemma_pow_adds(gb, (k - 1) as nat, 1);
            lemma_pow_adds(gc, (n - k) as nat, 1);
            lemma_pow_adds(gb, (n - k) as nat, 1);
            lemma_pow_adds(gc, (k - 1) as nat, (n - k + 1) as nat);
            lemma_pow1(gc);
            lemma_pow1(gb);
            lemma_pow_positive(gc, (k - 1) as nat);
            lemma_pow_positive(gb, (k - 1) as nat);
            lemma_pow_positive(gc, (n - k + 1) as nat);
            lemma_pow_positive(gb, (n - k + 1) as nat);
            lemma_pow_positive(gc, k as nat);
            lemma_pow_positive(gb, k as nat);
            lemma_pow_positive(gc, (n - k) as nat);
            lemma_pow_positive(gb, (n - k) as nat);
            lemma_pow_positive(gc, gn);
            lemma_pow_le_base(gb, gc, (n - k) as nat);
            lemma_pow_le_base(gb, gc, (n - k + 1) as nat);
            lemma_period_algebra(
                gpn,
                ga,
                gb,
                gc,
                pc1,
                pb1,
                qc1,
                qb1,
                pck,
                pbk,
                qck,
                qbk,
                pcn,
                prev_num@ as int,
                pay_num@ as int,
                prev_num@ as int * ga,
            );
        }
        let int_num = prev_num.mul(&terms.annual_rate_percent.num);
        let cur_den = prev_den.mul(&b);
        let prin_num = pay_num.sub(&int_num);
        let bal_scaled = prev_num.mul(&b);
        let new_bal = bal_scaled.sub(&prin_num);
        let rec = PaymentRecord {
            period_number: k,
            principal_component: Rat { neg: false, num: prin_num, den: cur_den.duplicate() },
            interest_component: Rat { neg: false, num: int_num, den: cur_den.duplicate() },
            total_payment: Rat { neg: false, num: pay_num.duplicate(), den: cur_den.duplicate() },
            remaining_balance: Rat { neg: false, num: new_bal.duplicate(), den: cur_den.duplicate() },
        };
        sched.push(rec);
        proof {
            let gi = sched@.len() - 1;
            let prev = balance_before(*terms, sched@, gi);
            let pvn = prev_num@ as int;
            let pvd = prev_den@ as int;
            let cd = cur_den@ as int;
            let pay = pay_num@ as int;
            let intr = int_num@ as int;
            let prin = prin_num@ as int;
            let nb = new_bal@ as int;
            assert(pvd >= 1) by (nonlinear_arith)
                requires
                    pvd == gpd * pb1 * (pcn - pow(gb, gn)),
                    gpd >= 1,
                    pb1 >= 1,
                    pcn - pow(gb, gn) >= 1,
            ;
            assert(cd == pvd * gb);
            assert(cd >= 1) by (nonlinear_arith)
                requires
                    cd == pvd * gb,
                    pvd >= 1,
                    gb >= 1,
            ;
            // the stored pair (prev_num, prev_den) denotes the balance before
            assert(rnum(prev) * pvd == pvn * rden(prev)) by (nonlinear_arith)
                requires
                    gi == 0 ==> rnum(prev) == gpn && rden(prev) == gpd && pvn == gpn * (pcn - pow(
                        gb,
                        gn,
                    )) && pvd == gpd * (pcn - pow(gb, gn)),
                    gi >= 1 ==> rnum(prev) == pvn && rden(prev) == pvd,
                    gi >= 0,
            ;
            assert(rden(prev) >= 1);
            // interest relation
            assert(rnum(prev) * ga * cd == intr * (rden(prev) * gb)) by (nonlinear_arith)
                requires
                    rnum(prev) * pvd == pvn * rden(prev),
                    cd == pvd * gb,
                    intr == pvn * ga,
            ;
            // conservation
            assert((prin * cd + intr * cd) * cd == pay * (cd * cd)) by (nonlinear_arith)
                requires
                    prin + intr == pay,
            ;
            // balance recurrence
            assert(rnum(prev) * cd == pvn * gb * rden(prev)) by (nonlinear_arith)
                requires
                    rnum(prev) * pvd == pvn * rden(prev),
                    cd == pvd * gb,
            ;
            assert((rnum(prev) * cd - prin * rden(prev)) * cd == nb * (rden(prev) * cd))
                by (nonlinear_arith)
                requires
                    rnum(prev) * cd == pvn * gb * rden(prev),
                    nb == pvn * gb - prin,
            ;
            // the fixed payment satisfies the annuity formula
            assert(cd == gpd * pb1 * (pcn - pow(gb, gn)) * gb) by (nonlinear_arith)
                requires
                    cd == pvd * gb,
                    pvd == gpd * pb1 * (pcn - pow(gb, gn)),
            ;
            assert(pay * (gpd * (gb * (pcn - pow(gb, gn)))) == (gpn * (ga * pcn)) * cd)
                by (nonlinear_arith)
                requires
                    pay == gpn * ga * pcn * pb1,
                    cd == gpd * pb1 * (pcn - pow(gb, gn)) * gb,
            ;
            // the balance strictly decreases
            assert(nb * rden(prev) < rnum(prev) * cd) by (nonlinear_arith)
                requires
                    rnum(prev) * pvd == pvn * rden(prev),
                    cd == pvd * gb,
                    nb == pvn * gb - prin,
                    prin >= 1,
                    rden(prev) >= 1,
                    pvd >= 1,
                    gb >= 1,
            ;
            assert(record_ok(*terms, sched@, gi));
            assert forall|i: int| 0 <= i < sched@.len() implies #[trigger] record_ok(
                *terms,
                sched@,
                i,
            ) by {
                if i < gi {
                    assert(record_ok(*terms, old_sched, i));
                    assert(sched@[i] == old_sched[i]);
                    assert(balance_before(*terms, sched@, i) == balance_before(
                        *terms,
                        old_sched,
                        i,
                    ));
                }
            }
        }
        prev_num = new_bal;
        prev_den = cur_den;
        pay_num = pay_num.mul(&b);
        proof {
            assert(pay_num@ as int == gpn * ga * pcn * pbk) by (nonlinear_arith)
                requires
                    pay_num@ as int == (gpn * ga * pcn * pb1) * gb,
                    pbk == pb1 * gb,
            ;
            assert(prev_den@ as int == gpd * pbk * (pcn - pow(gb, gn))) by (nonlinear_arith)
                requires
                    prev_den@ as int == (gpd * pb1 * (pcn - pow(gb, gn))) * gb,
                    pbk == pb1 * gb,
            ;
            assert(prev_num@ as int == gpn * pck * pbk * (qck - qbk));
        }
        k = k + 1;
    }
    proof {
        lemma_pow0(gc);
        lemma_pow0(gb);
        assert(prev_num@ as int == gpn * pow(gc, gn) * pow(gb, gn) * (pow(gc, 0) - pow(gb, 0)));
        assert(prev_num@ as int == 0) by (nonlinear_arith)
            requires
                prev_num@ as int == gpn * pow(gc, gn) * pow(gb, gn) * (pow(gc, 0) - pow(gb, 0)),
                pow(gc, 0) == 1,
                pow(gb, 0) == 1,
        ;
        assert(rnum(sched@[n - 1].remaining_balance) == 0);
        assert forall|i: int| 0 <= i < sched@.len() implies rat_eq(
            (#[trigger] sched@[i]).total_payment,
            sched@[0].total_payment,
        ) by {
            assert(record_ok(*terms, sched@, i));
            assert(record_ok(*terms, sched@, 0));
            lemma_payment_unique(*terms, sched@[i].total_payment, sched@[0].total_payment);
        }
    }
    sched
}

/// Computes the full amortization schedule for `terms`.
///
/// Returns `InvalidInput` exactly when the principal is not positive,
/// the rate is negative, or there are no periods; otherwise the returned
/// schedule satisfies `schedule_ok`: `term_periods` records numbered
/// from one, each splitting the fixed annuity payment into interest on
/// the running balance and principal, with the balance strictly falling
/// to exactly zero.
pub fn compute_schedule(terms: &LoanTerms) -> (res: Result<Vec<PaymentRecord>, ScheduleError>)
    requires
        terms_wf(*terms),
        terms.term_periods < usize::MAX,
    ensures
        res is Ok <==> terms_valid(*terms),
        (res matches Ok(s) ==> schedule_ok(*terms, s@)),
{
    if terms.term_periods == 0 {
        return Err(ScheduleError::InvalidInput);
    }
    if terms.principal.neg || terms.principal.num.is_zero() {
        return Err(ScheduleError::InvalidInput);
    }
    if terms.annual_rate_percent.neg && !terms.annual_rate_percent.num.is_zero() {
        return Err(ScheduleError::InvalidInput);
    }
    if terms.annual_rate_percent.num.is_zero() {
        Ok(compute_zero_rate(terms))
    } else {
        Ok(compute_positive_rate(terms))
    }
}

} // verus!
